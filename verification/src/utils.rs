//! Songs: the raw messages and the key events of each moment, grouped.

use vstd::prelude::*;
use vstd::slice::{slice_subrange, slice_to_vec};
use crate::errors::GroupError;
use crate::keyboard_events_extractor::{KeyData, KeyEvent};
use crate::midi_reader::{
    channel_data_len, is_channel_status, is_note_off, is_note_on, lemma_vlq_end_bounds, vlq_end,
    vlq_value, MidiEvent, RawEvent,
};
use crate::seq_search::{first_index_where, lemma_first_index_is, lemma_no_index_where};

verus! {

/// The lowest key of a piano, A0.
pub const LA_0: u8 = 21;

/// A sharp 0, the lowest black key.
pub const LA_DIESE_0: u8 = 22;

/// B0.
pub const SI_0: u8 = 23;

/// The first key of the first whole octave, C1.
pub const DO_1: u8 = 24;

/// The highest key of a piano, C8.
pub const DO_8: u8 = 108;

/// The bytes of one message for a device.
pub type MidiMessage = Vec<u8>;

/// What happens at one moment of a song.
#[derive(Debug, PartialEq, Eq)]
pub struct MusicEvent {
    pub time_in_ns: u64,
    /// The messages to send, in the order to send them.
    pub midi_messages: Vec<MidiMessage>,
    /// The keys to show as pressed or released.
    pub key_events: Vec<KeyData>,
}

/// The moments of a song, in ascending order of time.
pub type Song = Vec<MusicEvent>;

/// What a `MusicEvent` stands for.
pub struct MusicEventView {
    pub time_in_ns: u64,
    pub midi_messages: Seq<Seq<u8>>,
    pub key_events: Seq<KeyData>,
}

impl View for MusicEvent {
    type V = MusicEventView;

    open spec fn view(&self) -> MusicEventView {
        MusicEventView {
            time_in_ns: self.time_in_ns,
            midi_messages: self.midi_messages.deep_view(),
            key_events: self.key_events@,
        }
    }
}

impl DeepView for MusicEvent {
    type V = MusicEventView;

    open spec fn deep_view(&self) -> MusicEventView {
        self@
    }
}

impl Clone for MusicEvent {
    fn clone(&self) -> (copy: Self)
        ensures
            copy@ == self@,
    {
        let copy = MusicEvent {
            time_in_ns: self.time_in_ns,
            midi_messages: self.midi_messages.clone(),
            key_events: self.key_events.clone(),
        };
        assert(copy.midi_messages.deep_view() =~= self.midi_messages.deep_view());
        copy
    }
}

/// Whether the message ends a note.
pub fn is_key_release_event(data: &[u8]) -> (b: bool)
    ensures
        b == is_note_off(data@),
{
    data.len() == 3 && ((data[0] & 0xF0) == 0x80 || ((data[0] & 0xF0) == 0x90 && data[2] == 0x00))
}

/// Whether the message sounds a note.
pub fn is_key_down_event(data: &[u8]) -> (b: bool)
    ensures
        b == is_note_on(data@),
{
    data.len() == 3 && (data[0] & 0xF0) == 0x90 && data[2] != 0x00
}

/// The number of bytes that a length-prefixed payload takes at the start of
/// `stream`, the prefix counted in, and the whole stream at most. The whole
/// stream where it holds no complete prefix.
pub open spec fn spec_variable_data_length(stream: Seq<u8>) -> int {
    match vlq_end(stream, 0) {
        Some(end) => {
            let total = vlq_value(stream.take(end)) + end;
            if total < stream.len() {
                total
            } else {
                stream.len() as int
            }
        },
        None => stream.len() as int,
    }
}

/// The number of bytes that a length-prefixed payload takes at the start of
/// the stream, and the whole stream at most.
pub fn get_variable_data_length(message_stream: &[u8]) -> (res: usize)
    ensures
        res == spec_variable_data_length(message_stream@),
{
    let max_res = message_stream.len();
    let ghost stream = message_stream@;
    // the length read so far, and `max_res` once it is that or more
    let mut array_size: usize = 0;
    let mut nb_read: usize = 0;
    while nb_read < max_res
        invariant
            stream == message_stream@,
            nb_read <= max_res == stream.len(),
            vlq_end(stream, 0) == vlq_end(stream, nb_read as int),
            array_size <= max_res,
            array_size < max_res ==> array_size == vlq_value(stream.take(nb_read as int)),
            array_size == max_res ==> vlq_value(stream.take(nb_read as int)) >= max_res,
        decreases max_res - nb_read,
    {
        let c: u8 = message_stream[nb_read];
        let digit: u8 = c & 0x7F;
        proof {
            assert(stream.take(nb_read + 1).drop_last() == stream.take(nb_read as int));
            assert(digit < 128) by (bit_vector)
                requires
                    digit == c & 0x7F,
            ;
        }
        nb_read += 1;
        if array_size < max_res {
            let widened: u128 = array_size as u128 * 128 + digit as u128;
            array_size = if widened >= max_res as u128 {
                max_res
            } else {
                widened as usize
            };
        }
        if (c & 0x80) == 0 {
            return if nb_read >= max_res - array_size {
                max_res
            } else {
                array_size + nb_read
            };
        }
    }
    max_res
}

/// The number of bytes that the message at the start of `stream` takes, and
/// the whole stream at most. A meta message holds its status, its type and a
/// length-prefixed payload, a sysex message its status and a length-prefixed
/// payload, a channel message its status and one or two bytes. Whatever
/// starts otherwise takes the whole stream, and so does a single byte.
pub open spec fn spec_next_event_size(stream: Seq<u8>) -> int {
    let len = stream.len() as int;
    if len < 2 {
        len
    } else {
        let status = stream[0];
        let size = if status == 0xFF {
            2 + spec_variable_data_length(stream.skip(2))
        } else if status == 0xF0 || status == 0xF7 {
            1 + spec_variable_data_length(stream.skip(1))
        } else if is_channel_status(status) {
            1 + channel_data_len(status)
        } else {
            len
        };
        if size < len {
            size
        } else {
            len
        }
    }
}

/// A message takes at least one byte of a stream that holds one.
pub proof fn lemma_next_event_size_bounds(stream: Seq<u8>)
    ensures
        spec_next_event_size(stream) <= stream.len(),
        stream.len() > 0 ==> spec_next_event_size(stream) >= 1,
{
    if stream.len() >= 2 {
        lemma_vlq_end_bounds(stream.skip(2), 0);
        lemma_vlq_end_bounds(stream.skip(1), 0);
    }
}

/// The number of bytes that the message at the start of the stream takes,
/// and the whole stream at most.
pub fn get_next_event_size(message_stream: &[u8]) -> (res: usize)
    ensures
        res == spec_next_event_size(message_stream@),
{
    let len = message_stream.len();
    if len < 2 {
        return len;
    }
    let mut res: usize = 1;
    let ev_type = message_stream[0];
    if ev_type == 0xFF {
        res += 1;
    }
    if ev_type == 0xFF || ev_type == 0xF0 || ev_type == 0xF7 {
        let payload = slice_subrange(message_stream, res, len);
        res += get_variable_data_length(payload);
        return if res < len {
            res
        } else {
            len
        };
    }
    if (ev_type & 0xF0) >= 0x80 && (ev_type & 0xF0) != 0xF0 {
        if (ev_type & 0xF0) == 0xC0 || (ev_type & 0xF0) == 0xD0 {
            res += 1;
        } else {
            res += 2;
        }
        return if res < len {
            res
        } else {
            len
        };
    }
    len
}

/// A pitch that a piano has, from A0 to C8.
pub open spec fn in_piano_range(pitch: u8) -> bool {
    LA_0 <= pitch <= DO_8
}

/// The key that a message of three bytes presses or releases, if any.
pub open spec fn key_data_of(message: Seq<u8>) -> Seq<KeyData> {
    if is_note_off(message) {
        seq![KeyData::Released(message[1])]
    } else if is_note_on(message) {
        seq![KeyData::Pressed(message[1])]
    } else {
        Seq::empty()
    }
}

/// The messages of `stream` from `pos` on that have three bytes, the second
/// of them a pitch of a piano, and the keys that they press and release.
pub open spec fn spec_scan_messages(stream: Seq<u8>, pos: int) -> (Seq<Seq<u8>>, Seq<KeyData>)
    decreases stream.len() - pos,
    via spec_scan_messages_decreases
{
    if pos < 0 || pos >= stream.len() {
        (Seq::empty(), Seq::empty())
    } else {
        let size = spec_next_event_size(stream.skip(pos));
        let rest = spec_scan_messages(stream, pos + size);
        if size == 3 && in_piano_range(stream[pos + 1]) {
            let message = stream.subrange(pos, pos + 3);
            (seq![message] + rest.0, key_data_of(message) + rest.1)
        } else {
            rest
        }
    }
}

#[via_fn]
proof fn spec_scan_messages_decreases(stream: Seq<u8>, pos: int) {
    if 0 <= pos < stream.len() {
        lemma_next_event_size_bounds(stream.skip(pos));
    }
}

/// Every message kept has three bytes, the second of them a pitch of a
/// piano, and every key pressed or released is a key of a piano.
pub proof fn lemma_scan_messages_in_piano_range(stream: Seq<u8>, pos: int)
    ensures
        forall|i: int|
            0 <= i < spec_scan_messages(stream, pos).0.len() ==> (#[trigger] spec_scan_messages(
                stream,
                pos,
            ).0[i]).len() == 3 && in_piano_range(spec_scan_messages(stream, pos).0[i][1]),
        forall|i: int|
            0 <= i < spec_scan_messages(stream, pos).1.len() ==> in_piano_range(
                (#[trigger] spec_scan_messages(stream, pos).1[i]).pitch(),
            ),
    decreases stream.len() - pos,
{
    if 0 <= pos < stream.len() {
        lemma_next_event_size_bounds(stream.skip(pos));
        let size = spec_next_event_size(stream.skip(pos));
        lemma_scan_messages_in_piano_range(stream, pos + size);
        let rest = spec_scan_messages(stream, pos + size);
        let all = spec_scan_messages(stream, pos);
        if size == 3 && in_piano_range(stream[pos + 1]) {
            let message = stream.subrange(pos, pos + 3);
            let keys = key_data_of(message);
            assert forall|i: int| 0 <= i < all.0.len() implies (#[trigger] all.0[i]).len() == 3
                && in_piano_range(all.0[i][1]) by {
                if i > 0 {
                    assert(all.0[i] == rest.0[i - 1]);
                }
            }
            assert forall|i: int| 0 <= i < all.1.len() implies in_piano_range(
                (#[trigger] all.1[i]).pitch(),
            ) by {
                if i >= keys.len() {
                    assert(all.1[i] == rest.1[i - keys.len()]);
                }
            }
        }
    }
}

/// What a stream of messages from an input device comes to: its messages of
/// three bytes for a key of a piano, and the presses and releases among them.
/// Everything else is left out. The time is 0.
pub fn midi_to_music_events(message_stream: &[u8]) -> (res: MusicEvent)
    ensures
        res.time_in_ns == 0,
        res.midi_messages.deep_view() == spec_scan_messages(message_stream@, 0).0,
        res.key_events@ == spec_scan_messages(message_stream@, 0).1,
        forall|i: int|
            0 <= i < res.key_events@.len() ==> in_piano_range(
                (#[trigger] res.key_events@[i]).pitch(),
            ),
{
    proof {
        lemma_scan_messages_in_piano_range(message_stream@, 0);
    }
    let mut res = MusicEvent { midi_messages: Vec::new(), time_in_ns: 0, key_events: Vec::new() };
    let size = message_stream.len();
    let ghost stream = message_stream@;
    let mut nb_read: usize = 0;
    while nb_read < size
        invariant
            stream == message_stream@,
            nb_read <= size == stream.len(),
            res.time_in_ns == 0,
            spec_scan_messages(stream, 0).0 == res.midi_messages.deep_view() + spec_scan_messages(
                stream,
                nb_read as int,
            ).0,
            spec_scan_messages(stream, 0).1 == res.key_events@ + spec_scan_messages(
                stream,
                nb_read as int,
            ).1,
        decreases size - nb_read,
    {
        let rest = slice_subrange(message_stream, nb_read, size);
        proof {
            lemma_next_event_size_bounds(rest@);
        }
        let this_event_size = get_next_event_size(rest);
        let ghost messages = res.midi_messages.deep_view();
        let ghost keys = res.key_events@;
        let ghost after = spec_scan_messages(stream, nb_read + this_event_size);
        if this_event_size == 3 {
            let tmp = slice_subrange(message_stream, nb_read, nb_read + 3);
            let pitch = tmp[1];
            if pitch >= LA_0 && pitch <= DO_8 {
                if is_key_release_event(tmp) {
                    res.key_events.push(KeyData::Released(pitch));
                } else if is_key_down_event(tmp) {
                    res.key_events.push(KeyData::Pressed(pitch));
                }
                let message = slice_to_vec(tmp);
                assert(message.deep_view() == tmp@);
                res.midi_messages.push(message);
            }
        }
        nb_read += this_event_size;
    }
    assert(res.midi_messages.deep_view() + Seq::<Seq<u8>>::empty()
        == res.midi_messages.deep_view());
    res
}

/// The test that a message sounds a note of `pitch`.
pub open spec fn press_of(pitch: u8) -> spec_fn(Seq<u8>) -> bool {
    |message: Seq<u8>| is_note_on(message) && message[1] == pitch
}

/// The message that the one at `pos` changes places with: where that one
/// ends a note, the first message behind it that sounds a note of the same
/// pitch.
pub open spec fn press_to_swap(messages: Seq<Seq<u8>>, pos: int) -> Option<int> {
    if is_note_off(messages[pos]) {
        match first_index_where(messages.skip(pos + 1), press_of(messages[pos][1])) {
            Some(distance) => Some(pos + 1 + distance),
            None => None,
        }
    } else {
        None
    }
}

/// `s` with the elements at `a` and `b` in each other's place.
pub open spec fn swapped<T>(s: Seq<T>, a: int, b: int) -> Seq<T> {
    s.update(a, s[b]).update(b, s[a])
}

/// The messages once those before `upto` have changed places with what
/// `press_to_swap` gives for them, one after the other. What changes places
/// is decided on the messages as they are given.
pub open spec fn spec_fix_order_upto(messages: Seq<Seq<u8>>, upto: int) -> Seq<Seq<u8>>
    decreases upto,
{
    if upto <= 0 {
        messages
    } else {
        let before = spec_fix_order_upto(messages, upto - 1);
        match press_to_swap(messages, upto - 1) {
            Some(press) => swapped(before, upto - 1, press),
            None => before,
        }
    }
}

/// The messages of one moment in the order in which a device takes them:
/// each message that ends a note has changed places with the first message
/// behind it that sounds the same note.
pub open spec fn spec_fix_order(messages: Seq<Seq<u8>>) -> Seq<Seq<u8>> {
    spec_fix_order_upto(messages, messages.len() as int)
}

/// What changes places lies within the messages, and the order fixed has as
/// many messages as the order given.
pub proof fn lemma_fix_order_len(messages: Seq<Seq<u8>>, upto: int)
    requires
        upto <= messages.len(),
    ensures
        spec_fix_order_upto(messages, upto).len() == messages.len(),
        forall|pos: int|
            0 <= pos < messages.len() ==> (#[trigger] press_to_swap(messages, pos) matches Some(
                press,
            ) ==> pos < press < messages.len()),
    decreases upto,
{
    assert forall|pos: int| 0 <= pos < messages.len() implies (#[trigger] press_to_swap(
        messages,
        pos,
    ) matches Some(press) ==> pos < press < messages.len()) by {
        if is_note_off(messages[pos]) {
            crate::seq_search::lemma_first_index_where(
                messages.skip(pos + 1),
                press_of(messages[pos][1]),
            );
        }
    }
    if upto > 0 {
        lemma_fix_order_len(messages, upto - 1);
    }
}

/// Two elements that change places leave the sequence with what it held.
pub proof fn lemma_swapped_is_permutation<T>(s: Seq<T>, a: int, b: int)
    requires
        0 <= a < s.len(),
        0 <= b < s.len(),
    ensures
        swapped(s, a, b).len() == s.len(),
        swapped(s, a, b).to_multiset() == s.to_multiset(),
{
    broadcast use vstd::multiset::group_multiset_axioms;

    let first = s.update(a, s[b]);
    vstd::seq_lib::to_multiset_update(s, a, s[b]);
    vstd::seq_lib::to_multiset_update(first, b, s[a]);
    vstd::seq_lib::to_multiset_contains(s, s[a]);
    vstd::seq_lib::to_multiset_contains(s, s[b]);
    assert(s.contains(s[a]) && s.contains(s[b]));
    assert(swapped(s, a, b).to_multiset() =~= s.to_multiset());
}

/// The order fixed holds the messages given, each as often as it is given.
pub proof fn lemma_fix_order_is_permutation(messages: Seq<Seq<u8>>, upto: int)
    requires
        upto <= messages.len(),
    ensures
        spec_fix_order_upto(messages, upto).to_multiset() == messages.to_multiset(),
    decreases upto,
{
    if upto > 0 {
        lemma_fix_order_is_permutation(messages, upto - 1);
        lemma_fix_order_len(messages, upto - 1);
        if let Some(press) = press_to_swap(messages, upto - 1) {
            assert(press_to_swap(messages, upto - 1) == Some(press));
            lemma_swapped_is_permutation(
                spec_fix_order_upto(messages, upto - 1),
                upto - 1,
                press,
            );
        }
    }
}

/// The first message behind `pos` that sounds a note of `pitch`.
fn find_press_after(messages: &Vec<MidiMessage>, pos: usize, pitch: u8) -> (res: Option<usize>)
    requires
        pos < messages@.len(),
    ensures
        match res {
            Some(press) => pos < press < messages@.len() && first_index_where(
                messages.deep_view().skip(pos + 1),
                press_of(pitch),
            ) == Some(press - pos - 1),
            None => first_index_where(
                messages.deep_view().skip(pos + 1),
                press_of(pitch),
            ).is_none(),
        },
{
    let ghost later = messages.deep_view().skip(pos + 1);
    let n = messages.len();
    let mut i: usize = pos + 1;
    while i < n
        invariant
            pos < i <= n == messages@.len(),
            later == messages.deep_view().skip(pos + 1),
            forall|k: int| 0 <= k < i - pos - 1 ==> !press_of(pitch)(#[trigger] later[k]),
        decreases n - i,
    {
        let message = &messages[i];
        if is_key_down_event(message.as_slice()) && message[1] == pitch {
            proof {
                lemma_first_index_is(later, press_of(pitch), i - pos - 1);
            }
            return Some(i);
        }
        i += 1;
    }
    proof {
        lemma_no_index_where(later, press_of(pitch));
    }
    None
}

/// Puts the elements at `a` and `b` in each other's place.
fn swap_messages(messages: &mut Vec<MidiMessage>, a: usize, b: usize)
    requires
        a < old(messages)@.len(),
        b < old(messages)@.len(),
    ensures
        final(messages)@.len() == old(messages)@.len(),
        final(messages).deep_view() == swapped(old(messages).deep_view(), a as int, b as int),
{
    if a != b {
        let mut held: MidiMessage = Vec::new();
        core::mem::swap(&mut held, &mut messages[b]);
        core::mem::swap(&mut held, &mut messages[a]);
        core::mem::swap(&mut held, &mut messages[b]);
    }
}

/// Puts the messages of one moment in the order in which a device takes them.
fn fix_message_order(messages: &mut Vec<MidiMessage>)
    ensures
        final(messages).deep_view() == spec_fix_order(old(messages).deep_view()),
{
    let ghost given = messages.deep_view();
    let n = messages.len();
    let mut pos_to_switch: Vec<Option<usize>> = Vec::new();
    let mut cur_pos: usize = 0;
    while cur_pos < n
        invariant
            cur_pos <= n == given.len(),
            messages.deep_view() == given,
            messages@.len() == n,
            pos_to_switch@.len() == cur_pos,
            forall|k: int|
                0 <= k < cur_pos ==> match #[trigger] pos_to_switch@[k] {
                    Some(press) => press_to_swap(given, k) == Some(press as int) && press < n,
                    None => press_to_swap(given, k).is_none(),
                },
        decreases n - cur_pos,
    {
        let message = &messages[cur_pos];
        let target = if is_key_release_event(message.as_slice()) {
            find_press_after(messages, cur_pos, message[1])
        } else {
            None
        };
        pos_to_switch.push(target);
        cur_pos += 1;
    }
    let mut applied: usize = 0;
    while applied < n
        invariant
            applied <= n == given.len(),
            messages@.len() == n,
            pos_to_switch@.len() == n,
            messages.deep_view() == spec_fix_order_upto(given, applied as int),
            forall|k: int|
                0 <= k < n ==> match #[trigger] pos_to_switch@[k] {
                    Some(press) => press_to_swap(given, k) == Some(press as int) && press < n,
                    None => press_to_swap(given, k).is_none(),
                },
        decreases n - applied,
    {
        if let Some(press) = pos_to_switch[applied] {
            swap_messages(messages, applied, press);
        }
        applied += 1;
    }
}

/// `event` with its messages in the order in which a device takes them.
pub open spec fn with_fixed_order(event: MusicEventView) -> MusicEventView {
    MusicEventView {
        time_in_ns: event.time_in_ns,
        midi_messages: spec_fix_order(event.midi_messages),
        key_events: event.key_events,
    }
}

/// Puts the messages of every moment of the song in the order in which a
/// device takes them: a message that ends a note has changed places with the
/// first message behind it that sounds the same note, so that no key that is
/// pressed anew is heard as released.
pub fn fix_midi_order(song: &mut Song)
    ensures
        final(song)@.len() == old(song)@.len(),
        forall|k: int|
            0 <= k < old(song)@.len() ==> (#[trigger] final(song)@[k])@ == with_fixed_order(
                old(song)@[k]@,
            ),
{
    let n = song.len();
    let mut i: usize = 0;
    while i < n
        invariant
            i <= n == old(song)@.len(),
            song@.len() == n,
            forall|k: int|
                0 <= k < i ==> (#[trigger] song@[k])@ == with_fixed_order(old(song)@[k]@),
            forall|k: int| i <= k < n ==> #[trigger] song@[k] == old(song)@[k],
        decreases n - i,
    {
        fix_message_order(&mut song[i].midi_messages);
        i += 1;
    }
}

/// The test that a raw event stands at `time`.
pub open spec fn raw_at(time: u64) -> spec_fn(RawEvent) -> bool {
    |e: RawEvent| e.time == time
}

/// The test that a key event stands at `time`.
pub open spec fn key_at(time: u64) -> spec_fn(KeyEvent) -> bool {
    |e: KeyEvent| e.time_in_ns == time
}

/// The bytes of a raw event.
pub open spec fn raw_data() -> spec_fn(RawEvent) -> Seq<u8> {
    |e: RawEvent| e.data
}

/// What a key event does to its key.
pub open spec fn key_data() -> spec_fn(KeyEvent) -> KeyData {
    |e: KeyEvent| e.data
}

/// The messages of the raw events at `time`, in the order of the events.
pub open spec fn messages_at(midi: Seq<RawEvent>, time: u64) -> Seq<Seq<u8>> {
    midi.filter(raw_at(time)).map_values(raw_data())
}

/// The presses and releases at `time`, in the order of the key events.
pub open spec fn keys_at(keys: Seq<KeyEvent>, time: u64) -> Seq<KeyData> {
    keys.filter(key_at(time)).map_values(key_data())
}

/// A raw event or a key event stands at `time`.
pub open spec fn happens_at(midi: Seq<RawEvent>, keys: Seq<KeyEvent>, time: u64) -> bool {
    messages_at(midi, time).len() + keys_at(keys, time).len() > 0
}

/// All that happens at `time`, in the order given.
pub open spec fn group_at(midi: Seq<RawEvent>, keys: Seq<KeyEvent>, time: u64) -> MusicEventView {
    MusicEventView {
        time_in_ns: time,
        midi_messages: messages_at(midi, time),
        key_events: keys_at(keys, time),
    }
}

/// Each moment is later than the one before.
pub open spec fn is_strictly_increasing(groups: Seq<MusicEventView>) -> bool {
    forall|a: int, b: int|
        0 <= a < b < groups.len() ==> (#[trigger] groups[a]).time_in_ns < (
        #[trigger] groups[b]).time_in_ns
}

/// One of the moments is `time`.
pub open spec fn has_moment(groups: Seq<MusicEventView>, time: u64) -> bool {
    exists|k: int| 0 <= k < groups.len() && (#[trigger] groups[k]).time_in_ns == time
}

/// The moments are those at which a raw event or a key event stands, each
/// once, in ascending order.
pub open spec fn covers_moments(
    groups: Seq<MusicEventView>,
    midi: Seq<RawEvent>,
    keys: Seq<KeyEvent>,
) -> bool {
    &&& is_strictly_increasing(groups)
    &&& forall|k: int|
        0 <= k < groups.len() ==> happens_at(midi, keys, (#[trigger] groups[k]).time_in_ns)
    &&& forall|time: u64| #[trigger] happens_at(midi, keys, time) ==> has_moment(groups, time)
}

/// The events grouped by time: one group for each moment at which something
/// happens, in ascending order of time, with all that happens at that moment
/// in the order given.
pub open spec fn is_grouping_of(
    groups: Seq<MusicEventView>,
    midi: Seq<RawEvent>,
    keys: Seq<KeyEvent>,
) -> bool {
    &&& covers_moments(groups, midi, keys)
    &&& forall|k: int|
        0 <= k < groups.len() ==> #[trigger] groups[k] == group_at(
            midi,
            keys,
            groups[k].time_in_ns,
        )
}

/// The first `upto` moments of two arrangements of the same events have the
/// same times.
proof fn lemma_moments_agree(
    a: Seq<MusicEventView>,
    b: Seq<MusicEventView>,
    midi: Seq<RawEvent>,
    keys: Seq<KeyEvent>,
    upto: int,
)
    requires
        covers_moments(a, midi, keys),
        covers_moments(b, midi, keys),
        0 <= upto <= a.len(),
    ensures
        upto <= b.len(),
        forall|k: int| 0 <= k < upto ==> (#[trigger] a[k]).time_in_ns == b[k].time_in_ns,
    decreases upto,
{
    if upto > 0 {
        lemma_moments_agree(a, b, midi, keys, upto - 1);
        let k = upto - 1;
        let time = a[k].time_in_ns;
        // the moment of `a` stands in `b`, and not before `k`
        assert(happens_at(midi, keys, time));
        let j = choose|j: int| 0 <= j < b.len() && (#[trigger] b[j]).time_in_ns == time;
        if j < k {
            assert(a[j].time_in_ns == b[j].time_in_ns);
            assert(a[j].time_in_ns < a[k].time_in_ns);
        }
        // the moment of `b` at `k` stands in `a`, and not before `k`
        let other = b[k].time_in_ns;
        assert(happens_at(midi, keys, other));
        let i = choose|i: int| 0 <= i < a.len() && (#[trigger] a[i]).time_in_ns == other;
        if i < k {
            assert(a[i].time_in_ns == b[i].time_in_ns);
            assert(b[i].time_in_ns < b[k].time_in_ns);
        }
        if j > k {
            assert(b[k].time_in_ns < b[j].time_in_ns);
            if i > k {
                assert(a[k].time_in_ns < a[i].time_in_ns);
            }
        }
    }
}

/// The events have one song.
pub proof fn lemma_song_is_unique(
    a: Seq<MusicEventView>,
    b: Seq<MusicEventView>,
    midi: Seq<RawEvent>,
    keys: Seq<KeyEvent>,
)
    requires
        is_song_of(a, midi, keys),
        is_song_of(b, midi, keys),
    ensures
        a == b,
{
    lemma_moments_agree(a, b, midi, keys, a.len() as int);
    lemma_moments_agree(b, a, midi, keys, b.len() as int);
    assert(a =~= b);
}

/// The song of the events: their grouping by time, the messages of each
/// moment in the order in which a device takes them.
pub open spec fn is_song_of(song: Seq<MusicEventView>, midi: Seq<RawEvent>, keys: Seq<KeyEvent>)
    -> bool {
    &&& covers_moments(song, midi, keys)
    &&& forall|k: int|
        0 <= k < song.len() ==> #[trigger] song[k] == with_fixed_order(
            group_at(midi, keys, song[k].time_in_ns),
        )
}

/// The number of messages and key events of a moment.
pub open spec fn event_count(group: MusicEventView) -> nat {
    group.midi_messages.len() + group.key_events.len()
}

/// The number of messages and key events of all moments together.
pub open spec fn total_events(groups: Seq<MusicEventView>) -> nat
    decreases groups.len(),
{
    if groups.len() == 0 {
        0
    } else {
        total_events(groups.drop_last()) + event_count(groups.last())
    }
}

/// A new moment adds its events to the total.
pub proof fn lemma_total_events_insert(groups: Seq<MusicEventView>, pos: int, group: MusicEventView)
    requires
        0 <= pos <= groups.len(),
    ensures
        total_events(groups.insert(pos, group)) == total_events(groups) + event_count(group),
    decreases groups.len(),
{
    let inserted = groups.insert(pos, group);
    if pos == groups.len() {
        assert(inserted.drop_last() == groups);
    } else {
        assert(inserted.drop_last() == groups.drop_last().insert(pos, group));
        assert(inserted.last() == groups.last());
        lemma_total_events_insert(groups.drop_last(), pos, group);
    }
}

/// A moment that changes takes the total with it.
pub proof fn lemma_total_events_update(groups: Seq<MusicEventView>, pos: int, group: MusicEventView)
    requires
        0 <= pos < groups.len(),
    ensures
        total_events(groups.update(pos, group)) == total_events(groups) - event_count(groups[pos])
            + event_count(group),
    decreases groups.len(),
{
    let updated = groups.update(pos, group);
    if pos == groups.len() - 1 {
        assert(updated.drop_last() == groups.drop_last());
    } else {
        assert(updated.drop_last() == groups.drop_last().update(pos, group));
        assert(updated.last() == groups.last());
        lemma_total_events_update(groups.drop_last(), pos, group);
    }
}

/// Moments of the same numbers of events have the same total.
pub proof fn lemma_total_events_same_counts(a: Seq<MusicEventView>, b: Seq<MusicEventView>)
    requires
        a.len() == b.len(),
        forall|k: int| 0 <= k < a.len() ==> event_count(#[trigger] a[k]) == event_count(b[k]),
    ensures
        total_events(a) == total_events(b),
    decreases a.len(),
{
    if a.len() > 0 {
        assert forall|k: int| 0 <= k < a.drop_last().len() implies event_count(
            #[trigger] a.drop_last()[k],
        ) == event_count(b.drop_last()[k]) by {
            assert(a.drop_last()[k] == a[k]);
            assert(b.drop_last()[k] == b[k]);
        }
        lemma_total_events_same_counts(a.drop_last(), b.drop_last());
        assert(event_count(a[a.len() - 1]) == event_count(b[a.len() - 1]));
    }
}

/// What one more raw event adds to the messages of a moment.
pub proof fn lemma_messages_at_push(midi: Seq<RawEvent>, event: RawEvent, time: u64)
    ensures
        messages_at(midi.push(event), time) == if event.time == time {
            messages_at(midi, time).push(event.data)
        } else {
            messages_at(midi, time)
        },
{
    midi.lemma_filter_push(event, raw_at(time));
    if event.time == time {
        assert(midi.filter(raw_at(time)).push(event).map_values(raw_data()) == midi.filter(
            raw_at(time),
        ).map_values(raw_data()).push(event.data));
    }
}

/// What one more key event adds to the key events of a moment.
pub proof fn lemma_keys_at_push(keys: Seq<KeyEvent>, event: KeyEvent, time: u64)
    ensures
        keys_at(keys.push(event), time) == if event.time_in_ns == time {
            keys_at(keys, time).push(event.data)
        } else {
            keys_at(keys, time)
        },
{
    keys.lemma_filter_push(event, key_at(time));
    if event.time_in_ns == time {
        assert(keys.filter(key_at(time)).push(event).map_values(key_data()) == keys.filter(
            key_at(time),
        ).map_values(key_data()).push(event.data));
    }
}

/// Nothing happens where there is no event.
pub proof fn lemma_nothing_happens(time: u64)
    ensures
        messages_at(Seq::empty(), time) == Seq::<Seq<u8>>::empty(),
        keys_at(Seq::empty(), time) == Seq::<KeyData>::empty(),
{
    reveal(Seq::filter);
    assert(Seq::<RawEvent>::empty().filter(raw_at(time)) == Seq::<RawEvent>::empty());
    assert(Seq::<KeyEvent>::empty().filter(key_at(time)) == Seq::<KeyEvent>::empty());
}

/// A grouping follows the events: where what happens changes at one moment
/// only, the group of that moment, changed or new, is all that changes.
pub proof fn lemma_regroup(
    groups: Seq<MusicEventView>,
    midi: Seq<RawEvent>,
    keys: Seq<KeyEvent>,
    more_midi: Seq<RawEvent>,
    more_keys: Seq<KeyEvent>,
    time: u64,
    pos: int,
    found: bool,
) -> (regrouped: Seq<MusicEventView>)
    requires
        is_grouping_of(groups, midi, keys),
        forall|t: u64|
            t != time ==> #[trigger] messages_at(more_midi, t) == messages_at(midi, t),
        forall|t: u64| t != time ==> #[trigger] keys_at(more_keys, t) == keys_at(keys, t),
        happens_at(more_midi, more_keys, time),
        found ==> 0 <= pos < groups.len() && groups[pos].time_in_ns == time,
        !found ==> 0 <= pos <= groups.len() && (forall|k: int|
            0 <= k < pos ==> (#[trigger] groups[k]).time_in_ns < time) && (forall|k: int|
            pos <= k < groups.len() ==> (#[trigger] groups[k]).time_in_ns > time),
    ensures
        regrouped == if found {
            groups.update(pos, group_at(more_midi, more_keys, time))
        } else {
            groups.insert(pos, group_at(more_midi, more_keys, time))
        },
        is_grouping_of(regrouped, more_midi, more_keys),
{
    let group = group_at(more_midi, more_keys, time);
    let regrouped = if found {
        groups.update(pos, group)
    } else {
        groups.insert(pos, group)
    };
    // where each group of before stands now
    let moved = |k: int|
        if !found && k >= pos {
            k + 1
        } else {
            k
        };
    assert forall|k: int| 0 <= k < groups.len() && !(found && k == pos) implies regrouped[moved(
        k,
    )] == groups[k] && groups[k].time_in_ns != time by {}
    assert forall|a: int, b: int| 0 <= a < b < regrouped.len() implies (
    #[trigger] regrouped[a]).time_in_ns < (#[trigger] regrouped[b]).time_in_ns by {
        let before_a = if !found && a > pos {
            a - 1
        } else {
            a
        };
        let before_b = if !found && b > pos {
            b - 1
        } else {
            b
        };
        if found || (a != pos && b != pos) {
            assert(groups[before_a].time_in_ns < groups[before_b].time_in_ns);
        } else if a == pos {
            assert(groups[before_b].time_in_ns > time);
        } else {
            assert(groups[before_a].time_in_ns < time);
        }
    }
    assert forall|k: int| 0 <= k < regrouped.len() implies happens_at(
        more_midi,
        more_keys,
        (#[trigger] regrouped[k]).time_in_ns,
    ) && regrouped[k] == group_at(more_midi, more_keys, regrouped[k].time_in_ns) by {
        if k != pos {
            let before = if !found && k > pos {
                k - 1
            } else {
                k
            };
            let t = groups[before].time_in_ns;
            assert(regrouped[k] == groups[before]);
            assert(happens_at(midi, keys, t));
            assert(messages_at(more_midi, t) == messages_at(midi, t));
            assert(keys_at(more_keys, t) == keys_at(keys, t));
        }
    }
    assert forall|t: u64| #[trigger] happens_at(more_midi, more_keys, t) implies has_moment(
        regrouped,
        t,
    ) by {
        if t == time {
            assert(regrouped[pos].time_in_ns == time);
        } else {
            assert(messages_at(more_midi, t) == messages_at(midi, t));
            assert(keys_at(more_keys, t) == keys_at(keys, t));
            assert(happens_at(midi, keys, t));
            let k = choose|k: int| 0 <= k < groups.len() && (#[trigger] groups[k]).time_in_ns == t;
            assert(regrouped[moved(k)].time_in_ns == t);
        }
    }
    regrouped
}

/// The test that a key event is a press.
pub open spec fn is_press() -> spec_fn(KeyEvent) -> bool {
    |e: KeyEvent| e.data is Pressed
}

/// The test that a key event is a release.
pub open spec fn is_release() -> spec_fn(KeyEvent) -> bool {
    |e: KeyEvent| e.data is Released
}

/// The number of presses.
pub open spec fn count_pressed(keys: Seq<KeyEvent>) -> nat {
    keys.filter(is_press()).len()
}

/// The number of releases.
pub open spec fn count_released(keys: Seq<KeyEvent>) -> nat {
    keys.filter(is_release()).len()
}

/// A release and a press of one pitch.
pub open spec fn is_release_press_pair(released: KeyData, pressed: KeyData) -> bool {
    released matches KeyData::Released(pitch) && pressed == KeyData::Pressed(pitch)
}

/// Among `keys` a pitch is both released and pressed.
pub open spec fn holds_press_and_release(keys: Seq<KeyData>) -> bool {
    exists|i: int, j: int|
        0 <= i < keys.len() && 0 <= j < keys.len() && is_release_press_pair(
            #[trigger] keys[i],
            #[trigger] keys[j],
        )
}

/// A key is released and pressed at one moment.
pub open spec fn has_simultaneous_press_release(keys: Seq<KeyEvent>) -> bool {
    exists|i: int, j: int|
        0 <= i < keys.len() && 0 <= j < keys.len() && (#[trigger] keys[i]).time_in_ns == (
        #[trigger] keys[j]).time_in_ns && is_release_press_pair(keys[i].data, keys[j].data)
}

/// Why the events make no song, if they make none: the keys are not released
/// as often as they are pressed or, where they are, a key is released and
/// pressed at one moment.
pub open spec fn spec_group_error(keys: Seq<KeyEvent>) -> Option<GroupError> {
    if count_pressed(keys) != count_released(keys) {
        Some(GroupError::PressReleaseMismatch)
    } else if has_simultaneous_press_release(keys) {
        Some(GroupError::SimultaneousPressRelease)
    } else {
        None
    }
}

/// Each key event of a moment is one of the key events given.
pub proof fn lemma_keys_at_member(keys: Seq<KeyEvent>, time: u64, index: int)
    requires
        0 <= index < keys_at(keys, time).len(),
    ensures
        exists|j: int|
            0 <= j < keys.len() && (#[trigger] keys[j]).time_in_ns == time && keys[j].data
                == keys_at(keys, time)[index],
{
    let at_time = keys.filter(key_at(time));
    keys.lemma_filter_pred(key_at(time), index);
    assert(at_time.contains(at_time[index]));
    keys.lemma_filter_contains_rev(key_at(time), at_time[index]);
    let j = choose|j: int| 0 <= j < keys.len() && keys[j] == at_time[index];
    assert(keys[j].time_in_ns == time);
}

/// Each key event given is one of the key events of its moment.
pub proof fn lemma_keys_at_has(keys: Seq<KeyEvent>, j: int)
    requires
        0 <= j < keys.len(),
    ensures
        exists|index: int|
            0 <= index < keys_at(keys, keys[j].time_in_ns).len() && #[trigger] keys_at(
                keys,
                keys[j].time_in_ns,
            )[index] == keys[j].data,
{
    let time = keys[j].time_in_ns;
    let at_time = keys.filter(key_at(time));
    keys.lemma_filter_contains(key_at(time), j);
    let index = choose|index: int| 0 <= index < at_time.len() && at_time[index] == keys[j];
    assert(keys_at(keys, time)[index] == keys[j].data);
}

/// A key is released and pressed at one moment just when the group of some
/// moment holds both.
pub proof fn lemma_simultaneous_in_group(
    groups: Seq<MusicEventView>,
    midi: Seq<RawEvent>,
    keys: Seq<KeyEvent>,
)
    requires
        is_grouping_of(groups, midi, keys),
    ensures
        has_simultaneous_press_release(keys) <==> exists|k: int|
            0 <= k < groups.len() && holds_press_and_release((#[trigger] groups[k]).key_events),
{
    if has_simultaneous_press_release(keys) {
        let (i, j) = choose|i: int, j: int|
            0 <= i < keys.len() && 0 <= j < keys.len() && (#[trigger] keys[i]).time_in_ns == (
            #[trigger] keys[j]).time_in_ns && is_release_press_pair(keys[i].data, keys[j].data);
        let time = keys[i].time_in_ns;
        lemma_keys_at_has(keys, i);
        lemma_keys_at_has(keys, j);
        let at_time = keys_at(keys, time);
        let a = choose|a: int| 0 <= a < at_time.len() && #[trigger] at_time[a] == keys[i].data;
        let b = choose|b: int| 0 <= b < at_time.len() && #[trigger] at_time[b] == keys[j].data;
        assert(happens_at(midi, keys, time));
        let k = choose|k: int| 0 <= k < groups.len() && (#[trigger] groups[k]).time_in_ns == time;
        assert(groups[k] == group_at(midi, keys, time));
        assert(is_release_press_pair(groups[k].key_events[a], groups[k].key_events[b]));
        assert(holds_press_and_release(groups[k].key_events));
    }
    if exists|k: int|
        0 <= k < groups.len() && holds_press_and_release((#[trigger] groups[k]).key_events) {
        let k = choose|k: int|
            0 <= k < groups.len() && holds_press_and_release((#[trigger] groups[k]).key_events);
        let time = groups[k].time_in_ns;
        let at_time = groups[k].key_events;
        assert(groups[k] == group_at(midi, keys, time));
        let (a, b) = choose|a: int, b: int|
            0 <= a < at_time.len() && 0 <= b < at_time.len() && is_release_press_pair(
                #[trigger] at_time[a],
                #[trigger] at_time[b],
            );
        lemma_keys_at_member(keys, time, a);
        lemma_keys_at_member(keys, time, b);
        let i = choose|i: int|
            0 <= i < keys.len() && (#[trigger] keys[i]).time_in_ns == time && keys[i].data
                == at_time[a];
        let j = choose|j: int|
            0 <= j < keys.len() && (#[trigger] keys[j]).time_in_ns == time && keys[j].data
                == at_time[b];
        assert(keys[i].time_in_ns == keys[j].time_in_ns && is_release_press_pair(
            keys[i].data,
            keys[j].data,
        ));
    }
}

/// Where the moment `time` stands in the song, or where it would.
fn position_of_time(song: &Vec<MusicEvent>, time: u64) -> (res: Result<usize, usize>)
    requires
        is_strictly_increasing(song.deep_view()),
    ensures
        match res {
            Ok(pos) => pos < song@.len() && song.deep_view()[pos as int].time_in_ns == time,
            Err(pos) => pos <= song@.len() && (forall|k: int|
                0 <= k < pos ==> (#[trigger] song.deep_view()[k]).time_in_ns < time) && (forall|
                k: int,
            |
                pos <= k < song@.len() ==> (#[trigger] song.deep_view()[k]).time_in_ns > time),
        },
{
    let ghost groups = song.deep_view();
    let mut pos: usize = song.len();
    while pos > 0 && song[pos - 1].time_in_ns > time
        invariant
            pos <= song@.len(),
            groups == song.deep_view(),
            forall|k: int| pos <= k < song@.len() ==> (#[trigger] groups[k]).time_in_ns > time,
        decreases pos,
    {
        pos -= 1;
    }
    if pos > 0 && song[pos - 1].time_in_ns == time {
        assert(groups[pos - 1].time_in_ns == song@[pos - 1].time_in_ns);
        Ok(pos - 1)
    } else {
        Err(pos)
    }
}

/// Counts the presses and the releases.
fn count_presses_and_releases(keyboard_events: &Vec<KeyEvent>) -> (res: (usize, usize))
    ensures
        res.0 == count_pressed(keyboard_events@),
        res.1 == count_released(keyboard_events@),
{
    let ghost keys = keyboard_events@;
    let mut nb_pressed: usize = 0;
    let mut nb_released: usize = 0;
    let mut i: usize = 0;
    proof {
        reveal(Seq::filter);
    }
    while i < keyboard_events.len()
        invariant
            i <= keyboard_events@.len(),
            keys == keyboard_events@,
            nb_pressed == count_pressed(keys.take(i as int)),
            nb_released == count_released(keys.take(i as int)),
            nb_pressed <= i,
            nb_released <= i,
        decreases keyboard_events.len() - i,
    {
        proof {
            assert(keys.take(i + 1) == keys.take(i as int).push(keys[i as int]));
            keys.take(i as int).lemma_filter_push(keys[i as int], is_press());
            keys.take(i as int).lemma_filter_push(keys[i as int], is_release());
        }
        match keyboard_events[i].data {
            KeyData::Pressed(_) => {
                nb_pressed += 1;
            },
            KeyData::Released(_) => {
                nb_released += 1;
            },
        }
        i += 1;
    }
    assert(keys.take(keys.len() as int) == keys);
    (nb_pressed, nb_released)
}

/// Whether a pitch is both released and pressed among the key events.
fn has_press_and_release(key_events: &Vec<KeyData>) -> (b: bool)
    ensures
        b == holds_press_and_release(key_events@),
{
    let n = key_events.len();
    let mut i: usize = 0;
    while i < n
        invariant
            i <= n == key_events@.len(),
            forall|a: int, b: int|
                0 <= a < i && 0 <= b < n ==> !is_release_press_pair(
                    #[trigger] key_events@[a],
                    #[trigger] key_events@[b],
                ),
        decreases n - i,
    {
        if let KeyData::Released(pitch) = key_events[i] {
            let mut j: usize = 0;
            while j < n
                invariant
                    i < n == key_events@.len(),
                    j <= n,
                    key_events@[i as int] == KeyData::Released(pitch),
                    forall|b: int|
                        0 <= b < j ==> !is_release_press_pair(
                            key_events@[i as int],
                            #[trigger] key_events@[b],
                        ),
                decreases n - j,
            {
                if let KeyData::Pressed(p) = key_events[j] {
                    if p == pitch {
                        return true;
                    }
                }
                j += 1;
            }
        }
        i += 1;
    }
    false
}

/// Adds a message at `time` to the song: to the group of that moment, or as
/// a new group in its place.
fn add_message(
    song: &mut Song,
    time: u64,
    message: MidiMessage,
    Ghost(midi): Ghost<Seq<RawEvent>>,
    Ghost(keys): Ghost<Seq<KeyEvent>>,
)
    requires
        is_grouping_of(old(song).deep_view(), midi, keys),
    ensures
        is_grouping_of(
            final(song).deep_view(),
            midi.push(RawEvent { time, data: message@ }),
            keys,
        ),
        total_events(final(song).deep_view()) == total_events(old(song).deep_view()) + 1,
        final(song)@.len() <= old(song)@.len() + 1,
{
    let ghost groups = song.deep_view();
    let ghost event = RawEvent { time, data: message@ };
    let ghost more_midi = midi.push(event);
    proof {
        assert forall|t: u64| t != time implies #[trigger] messages_at(more_midi, t) == messages_at(
            midi,
            t,
        ) by {
            lemma_messages_at_push(midi, event, t);
        }
        lemma_messages_at_push(midi, event, time);
        assert(message.deep_view() == message@);
    }
    match position_of_time(song, time) {
        Ok(pos) => {
            proof {
                lemma_total_events_update(groups, pos as int, group_at(more_midi, keys, time));
            }
            song[pos].midi_messages.push(message);
            proof {
                let at: int = pos as int;
                let regrouped = lemma_regroup(groups, midi, keys, more_midi, keys, time, at, true);
                assert(song@[at].midi_messages.deep_view() == groups[at].midi_messages.push(
                    event.data,
                ));
                assert(song.deep_view() == regrouped);
            }
        },
        Err(pos) => {
            proof {
                if happens_at(midi, keys, time) {
                    // then a group stands at `time`, where none was found
                    let k = choose|k: int|
                        0 <= k < groups.len() && (#[trigger] groups[k]).time_in_ns == time;
                    assert(false);
                }
                assert(messages_at(midi, time) == Seq::<Seq<u8>>::empty());
                assert(keys_at(keys, time) == Seq::<KeyData>::empty());
                lemma_total_events_insert(groups, pos as int, group_at(more_midi, keys, time));
            }
            let mut midi_messages: Vec<MidiMessage> = Vec::new();
            midi_messages.push(message);
            assert(midi_messages.deep_view() == Seq::<Seq<u8>>::empty().push(event.data));
            let group = MusicEvent { time_in_ns: time, midi_messages, key_events: Vec::new() };
            song.insert(pos, group);
            proof {
                let at: int = pos as int;
                let regrouped = lemma_regroup(groups, midi, keys, more_midi, keys, time, at, false);
                assert(song.deep_view() == regrouped);
            }
        },
    }
}

/// Adds a key event to the song: to the group of its moment, or as a new
/// group in its place.
fn add_key_event(
    song: &mut Song,
    event: KeyEvent,
    Ghost(midi): Ghost<Seq<RawEvent>>,
    Ghost(keys): Ghost<Seq<KeyEvent>>,
)
    requires
        is_grouping_of(old(song).deep_view(), midi, keys),
    ensures
        is_grouping_of(final(song).deep_view(), midi, keys.push(event)),
        total_events(final(song).deep_view()) == total_events(old(song).deep_view()) + 1,
        final(song)@.len() <= old(song)@.len() + 1,
{
    let ghost groups = song.deep_view();
    let ghost more_keys = keys.push(event);
    let time = event.time_in_ns;
    proof {
        assert forall|t: u64| t != time implies #[trigger] keys_at(more_keys, t) == keys_at(
            keys,
            t,
        ) by {
            lemma_keys_at_push(keys, event, t);
        }
        lemma_keys_at_push(keys, event, time);
    }
    match position_of_time(song, time) {
        Ok(pos) => {
            proof {
                lemma_total_events_update(groups, pos as int, group_at(midi, more_keys, time));
            }
            song[pos].key_events.push(event.data);
            proof {
                let at: int = pos as int;
                let regrouped = lemma_regroup(groups, midi, keys, midi, more_keys, time, at, true);
                assert(song.deep_view() == regrouped);
            }
        },
        Err(pos) => {
            proof {
                if happens_at(midi, keys, time) {
                    // then a group stands at `time`, where none was found
                    let k = choose|k: int|
                        0 <= k < groups.len() && (#[trigger] groups[k]).time_in_ns == time;
                    assert(false);
                }
                assert(messages_at(midi, time) == Seq::<Seq<u8>>::empty());
                assert(keys_at(keys, time) == Seq::<KeyData>::empty());
                lemma_total_events_insert(groups, pos as int, group_at(midi, more_keys, time));
            }
            let mut key_events: Vec<KeyData> = Vec::new();
            key_events.push(event.data);
            let group = MusicEvent { time_in_ns: time, midi_messages: Vec::new(), key_events };
            assert(group.midi_messages.deep_view() == Seq::<Seq<u8>>::empty());
            song.insert(pos, group);
            proof {
                let at: int = pos as int;
                let regrouped = lemma_regroup(groups, midi, keys, midi, more_keys, time, at, false);
                assert(song.deep_view() == regrouped);
            }
        },
    }
}

/// Makes the song of the raw events and the key events: one moment for each
/// time at which any of them stands, in ascending order of time, with the
/// messages and the key events of that time in the order given, and the
/// messages then put in the order in which a device takes them.
///
/// No moment is empty, no two moments share a time, and the moments hold as
/// many messages and key events as were given. There is no song where the
/// keys are not released as often as they are pressed, nor where a key is
/// released and pressed at one moment.
pub fn group_events_by_time(midi_events: &Vec<MidiEvent>, keyboard_events: &Vec<KeyEvent>) -> (res:
    Result<Song, GroupError>)
    ensures
        match spec_group_error(keyboard_events@) {
            Some(e) => res matches Err(err) && err == e,
            None => res matches Ok(song) && is_song_of(
                song.deep_view(),
                midi_events.deep_view(),
                keyboard_events@,
            ) && total_events(song.deep_view()) == midi_events@.len() + keyboard_events@.len()
                && song@.len() <= midi_events@.len() + keyboard_events@.len() && forall|k: int|
                0 <= k < song@.len() ==> event_count(#[trigger] song.deep_view()[k]) > 0,
        },
{
    let ghost midi = midi_events.deep_view();
    let ghost keys = keyboard_events@;
    let mut res: Song = Vec::new();
    proof {
        assert forall|time: u64| !#[trigger] happens_at(
            midi.take(0),
            Seq::<KeyEvent>::empty(),
            time,
        ) by {
            lemma_nothing_happens(time);
        }
    }
    let mut i: usize = 0;
    while i < midi_events.len()
        invariant
            i <= midi_events@.len(),
            midi == midi_events.deep_view(),
            is_grouping_of(res.deep_view(), midi.take(i as int), Seq::<KeyEvent>::empty()),
            total_events(res.deep_view()) == i,
            res@.len() <= i,
        decreases midi_events.len() - i,
    {
        let elt = &midi_events[i];
        let message = elt.data.clone();
        proof {
            assert(midi.take(i + 1) == midi.take(i as int).push(midi[i as int]));
        }
        add_message(&mut res, elt.time, message, Ghost(midi.take(i as int)), Ghost(Seq::empty()));
        i += 1;
    }
    assert(midi.take(midi.len() as int) == midi);
    assert(keys.take(0) == Seq::<KeyEvent>::empty());
    let mut j: usize = 0;
    while j < keyboard_events.len()
        invariant
            j <= keyboard_events@.len(),
            keys == keyboard_events@,
            is_grouping_of(res.deep_view(), midi, keys.take(j as int)),
            total_events(res.deep_view()) == midi.len() + j,
            res@.len() <= midi.len() + j,
        decreases keyboard_events.len() - j,
    {
        proof {
            assert(keys.take(j + 1) == keys.take(j as int).push(keys[j as int]));
        }
        add_key_event(&mut res, keyboard_events[j], Ghost(midi), Ghost(keys.take(j as int)));
        j += 1;
    }
    assert(keys.take(keys.len() as int) == keys);

    let (nb_pressed, nb_released) = count_presses_and_releases(keyboard_events);
    if nb_pressed != nb_released {
        return Err(GroupError::PressReleaseMismatch);
    }
    let ghost groups = res.deep_view();
    let mut k: usize = 0;
    while k < res.len()
        invariant
            k <= res@.len(),
            groups == res.deep_view(),
            keys == keyboard_events@,
            is_grouping_of(groups, midi, keys),
            count_pressed(keys) == count_released(keys),
            forall|g: int|
                0 <= g < k ==> !holds_press_and_release((#[trigger] groups[g]).key_events),
        decreases res.len() - k,
    {
        assert(groups[k as int].key_events == res@[k as int].key_events@);
        if has_press_and_release(&res[k].key_events) {
            proof {
                lemma_simultaneous_in_group(groups, midi, keys);
            }
            return Err(GroupError::SimultaneousPressRelease);
        }
        k += 1;
    }
    proof {
        lemma_simultaneous_in_group(groups, midi, keys);
    }
    fix_midi_order(&mut res);
    proof {
        let song = res.deep_view();
        assert forall|g: int| 0 <= g < song.len() implies #[trigger] song[g] == with_fixed_order(
            groups[g],
        ) && event_count(song[g]) == event_count(groups[g]) && event_count(song[g]) > 0 by {
            lemma_fix_order_len(groups[g].midi_messages, groups[g].midi_messages.len() as int);
        }
        lemma_total_events_same_counts(song, groups);
        assert forall|time: u64| #[trigger] happens_at(midi, keys, time) implies has_moment(
            song,
            time,
        ) by {
            let g = choose|g: int|
                0 <= g < groups.len() && (#[trigger] groups[g]).time_in_ns == time;
            assert(song[g].time_in_ns == time);
        }
    }
    Ok(res)
}

} // verus!
