//! Decoding of a Standard MIDI File into raw events with absolute timestamps.

use vstd::prelude::*;
use crate::byte_cursor::{be_u16, be_u32, ByteCursor};
use crate::errors::DecodeError;
use crate::stable_sort::{
    is_sorted_by, lemma_filter_keeps_sorted, lemma_sort_is_sorted, lemma_sort_map_values,
    sort_by_key, sort_by_time, time_key, Timestamped,
};
use crate::tempo_mapper::{set_real_timings, spec_real_timings};

verus! {

/// A raw event of a MIDI stream: the bytes that a device takes, and when.
#[derive(Debug, PartialEq, Eq)]
pub struct MidiEvent {
    /// Ticks while a file is being decoded, nanoseconds once its tempo map has
    /// been applied.
    pub time: u64,
    /// The status byte, then what belongs to it.
    pub data: Vec<u8>,
}

/// What a `MidiEvent` stands for.
pub struct RawEvent {
    pub time: u64,
    pub data: Seq<u8>,
}

impl View for MidiEvent {
    type V = RawEvent;

    open spec fn view(&self) -> RawEvent {
        RawEvent { time: self.time, data: self.data@ }
    }
}

impl DeepView for MidiEvent {
    type V = RawEvent;

    open spec fn deep_view(&self) -> RawEvent {
        self@
    }
}

impl Clone for MidiEvent {
    fn clone(&self) -> (copy: Self)
        ensures
            copy@ == self@,
    {
        MidiEvent { time: self.time, data: self.data.clone() }
    }
}

impl Timestamped for MidiEvent {
    open spec fn timestamp(&self) -> u64 {
        self.time
    }

    fn get_timestamp(&self) -> (t: u64) {
        self.time
    }
}

/// The key by which raw events are ordered.
pub open spec fn raw_time() -> spec_fn(RawEvent) -> u64 {
    |e: RawEvent| e.time
}

/// A note-on message that sounds: three bytes, status `9x`, a velocity other
/// than zero.
pub open spec fn is_note_on(data: Seq<u8>) -> bool {
    data.len() == 3 && data[0] & 0xF0 == 0x90 && data[2] != 0
}

/// A message that ends a note: three bytes, and either status `8x` or status
/// `9x` with velocity zero.
pub open spec fn is_note_off(data: Seq<u8>) -> bool {
    data.len() == 3 && (data[0] & 0xF0 == 0x80 || (data[0] & 0xF0 == 0x90 && data[2] == 0))
}

impl MidiEvent {
    /// Whether the event sounds a note.
    pub fn is_key_pressed(&self) -> (b: bool)
        ensures
            b == is_note_on(self.data@),
    {
        self.data.len() == 3 && (self.data[0] & 0xF0) == 0x90 && self.data[2] != 0x00
    }

    /// Whether the event ends a note.
    pub fn is_key_released(&self) -> (b: bool)
        ensures
            b == is_note_off(self.data@),
    {
        self.data.len() == 3 && ((self.data[0] & 0xF0) == 0x80 || ((self.data[0] & 0xF0) == 0x90
            && self.data[2] == 0x00))
    }

    /// The second byte, which for a note message is its pitch.
    pub fn get_pitch(&self) -> (p: Option<u8>)
        ensures
            self.data@.len() >= 2 ==> p == Some(self.data@[1]),
            self.data@.len() < 2 ==> p.is_none(),
    {
        if self.data.len() >= 2 {
            Some(self.data[1])
        } else {
            None
        }
    }
}

/// The index just behind the variable-length quantity that starts at `pos`:
/// behind the first byte from `pos` on whose high bit is clear. `None` where
/// the bytes end before such a byte.
pub open spec fn vlq_end(bytes: Seq<u8>, pos: int) -> Option<int>
    decreases bytes.len() - pos,
{
    if pos < 0 || pos >= bytes.len() {
        None
    } else if bytes[pos] & 0x80 == 0 {
        Some(pos + 1)
    } else {
        vlq_end(bytes, pos + 1)
    }
}

/// The number that the bytes of a variable-length quantity spell: seven bits
/// a byte, the most significant first.
pub open spec fn vlq_value(digits: Seq<u8>) -> nat
    decreases digits.len(),
{
    if digits.len() == 0 {
        0
    } else {
        vlq_value(digits.drop_last()) * 128 + (digits.last() & 0x7F) as nat
    }
}

/// 128 to the power of `n`.
pub open spec fn pow128(n: nat) -> nat
    decreases n,
{
    if n == 0 {
        1
    } else {
        128 * pow128((n - 1) as nat)
    }
}

/// A quantity of `n` bytes is below 128 to the power of `n`.
pub proof fn lemma_vlq_value_bound(digits: Seq<u8>)
    ensures
        vlq_value(digits) < pow128(digits.len()),
    decreases digits.len(),
{
    if digits.len() > 0 {
        lemma_vlq_value_bound(digits.drop_last());
        let d = digits.last();
        assert(d & 0x7F < 128) by (bit_vector);
    }
}

/// The end of a quantity lies behind its start and within the bytes. Its
/// last byte has its high bit clear, and it is the first from the start on
/// that has.
pub proof fn lemma_vlq_end_bounds(bytes: Seq<u8>, pos: int)
    ensures
        vlq_end(bytes, pos) matches Some(e) ==> 0 <= pos < e <= bytes.len() && bytes[e - 1] & 0x80
            == 0 && forall|i: int| pos <= i < e - 1 ==> #[trigger] bytes[i] & 0x80 != 0,
        vlq_end(bytes, pos).is_none() ==> forall|i: int|
            0 <= pos <= i < bytes.len() ==> #[trigger] bytes[i] & 0x80 != 0,
    decreases bytes.len() - pos,
{
    if 0 <= pos < bytes.len() && bytes[pos] & 0x80 != 0 {
        lemma_vlq_end_bounds(bytes, pos + 1);
    }
}

proof fn lemma_pow128_monotonic(a: nat, b: nat)
    requires
        a <= b,
    ensures
        pow128(a) <= pow128(b),
        pow128(a) >= 1,
    decreases b,
{
    if a < b {
        lemma_pow128_monotonic(a, (b - 1) as nat);
    } else if a > 0 {
        lemma_pow128_monotonic((a - 1) as nat, (a - 1) as nat);
    }
}

proof fn lemma_pow128_values()
    ensures
        pow128(4) == 0x1000_0000,
        pow128(7) == 0x2_0000_0000_0000,
        pow128(8) == 0x100_0000_0000_0000,
{
    reveal_with_fuel(pow128, 10);
}

/// Reads the bytes of a variable-length quantity: all bytes up to and with
/// the first one whose high bit is clear.
pub fn get_variable_length_array(cursor: &mut ByteCursor) -> (res: Result<Vec<u8>, DecodeError>)
    ensures
        final(cursor).bytes() == old(cursor).bytes(),
        match vlq_end(old(cursor).bytes(), old(cursor).offset()) {
            Some(end) => res matches Ok(v) && v@ == old(cursor).bytes().subrange(
                old(cursor).offset(),
                end,
            ) && final(cursor).offset() == end,
            None => res matches Err(e) && e == DecodeError::UnexpectedEof && *final(cursor)
                == *old(cursor),
        },
{
    let mut c = *cursor;
    let mut res: Vec<u8> = Vec::new();
    let ghost bytes = cursor.bytes();
    let ghost start = cursor.offset();
    proof {
        use_type_invariant(&c);
    }
    loop
        invariant
            c.bytes() == bytes,
            cursor.bytes() == bytes,
            cursor.offset() == start,
            *cursor == *old(cursor),
            0 <= start <= c.offset() <= bytes.len(),
            vlq_end(bytes, start) == vlq_end(bytes, c.offset()),
            res@ == bytes.subrange(start, c.offset()),
        decreases bytes.len() - c.offset(),
    {
        match c.read_one_byte() {
            Err(e) => {
                return Err(e);
            },
            Ok(v) => {
                res.push(v);
                if (v & 0x80) == 0 {
                    *cursor = c;
                    return Ok(res);
                }
            },
        }
    }
}

/// The number that the bytes of a variable-length quantity spell. More than 8
/// bytes are refused.
pub fn get_variable_length_value(vec: &[u8]) -> (res: Result<u64, DecodeError>)
    ensures
        vec@.len() <= 8 ==> res == Ok::<u64, DecodeError>(vlq_value(vec@) as u64) && vlq_value(
            vec@,
        ) < 0x100_0000_0000_0000,
        vec@.len() > 8 ==> res == Err::<u64, DecodeError>(
            DecodeError::VariableLengthTooLong { bytes_used: vec.len() },
        ),
{
    if vec.len() > 8 {
        return Err(DecodeError::VariableLengthTooLong { bytes_used: vec.len() });
    }
    let mut res: u64 = 0;
    let mut i: usize = 0;
    while i < vec.len()
        invariant
            i <= vec.len() <= 8,
            res == vlq_value(vec@.take(i as int)),
        decreases vec.len() - i,
    {
        let byte: u8 = vec[i];
        let digit: u8 = byte & 0x7F;
        proof {
            lemma_vlq_value_bound(vec@.take(i as int));
            lemma_pow128_monotonic(i as nat, 7);
            lemma_pow128_values();
            assert(vec@.take(i + 1).drop_last() == vec@.take(i as int));
            assert(digit < 128) by (bit_vector)
                requires
                    digit == byte & 0x7F,
            ;
            let wide: u64 = digit as u64;
            assert((res << 7) | wide == res * 128 + wide) by (bit_vector)
                requires
                    res < 0x2_0000_0000_0000,
                    wide < 128,
            ;
        }
        res = (res << 7) | (digit as u64);
        i += 1;
    }
    proof {
        assert(vec@.take(vec@.len() as int) == vec@);
        lemma_vlq_value_bound(vec@);
        lemma_pow128_monotonic(vec@.len(), 8);
        lemma_pow128_values();
    }
    Ok(res)
}

/// What a read leaves behind: the value and the new position that `expected`
/// gives, or its error and the cursor where it was.
pub open spec fn reads<T>(
    before: ByteCursor,
    after: ByteCursor,
    res: Result<T, DecodeError>,
    expected: Result<(T, int), DecodeError>,
) -> bool {
    &&& after.bytes() == before.bytes()
    &&& match expected {
        Ok((v, end)) => res == Ok::<T, DecodeError>(v) && after.offset() == end,
        Err(e) => res == Err::<T, DecodeError>(e) && after == before,
    }
}

/// The delta-time at `pos`: a variable-length quantity on at most 4 bytes.
pub open spec fn spec_relative_time(bytes: Seq<u8>, pos: int) -> Result<(u32, int), DecodeError> {
    match vlq_end(bytes, pos) {
        None => Err(DecodeError::UnexpectedEof),
        Some(end) => if end - pos > 4 {
            Err(DecodeError::InvalidRelativeTime { encoded_on: (end - pos) as usize })
        } else {
            Ok((vlq_value(bytes.subrange(pos, end)) as u32, end))
        },
    }
}

/// Reads a delta-time: a variable-length quantity on at most 4 bytes.
pub fn get_relative_time(cursor: &mut ByteCursor) -> (res: Result<u32, DecodeError>)
    ensures
        reads(
            *old(cursor),
            *final(cursor),
            res,
            spec_relative_time(old(cursor).bytes(), old(cursor).offset()),
        ),
{
    let mut c = *cursor;
    proof {
        lemma_vlq_end_bounds(cursor.bytes(), cursor.offset());
    }
    let buffer = get_variable_length_array(&mut c)?;
    if buffer.len() > 4 {
        return Err(DecodeError::InvalidRelativeTime { encoded_on: buffer.len() });
    }
    let value = get_variable_length_value(buffer.as_slice())?;
    proof {
        lemma_vlq_value_bound(buffer@);
        lemma_pow128_monotonic(buffer@.len(), 4);
        lemma_pow128_values();
    }
    *cursor = c;
    Ok(value as u32)
}

/// The status of the event whose body starts at `pos`. A first byte with its
/// high bit set is the status and is consumed; any other first byte belongs to
/// the body, and the status is that of the event before (running status).
pub open spec fn spec_status(bytes: Seq<u8>, pos: int, last_status: u8) -> Result<
    (u8, int),
    DecodeError,
> {
    if pos < 0 || pos >= bytes.len() {
        Err(DecodeError::UnexpectedEof)
    } else if bytes[pos] & 0x80 == 0 {
        Ok((last_status, pos))
    } else {
        Ok((bytes[pos], pos + 1))
    }
}

/// A status that opens a channel event: high nibble from 8 to E.
pub open spec fn is_channel_status(status: u8) -> bool {
    status & 0xF0 >= 0x80 && status & 0xF0 != 0xF0
}

/// The number of data bytes of a channel event: one for program change and
/// channel aftertouch, two for the others.
pub open spec fn channel_data_len(status: u8) -> int {
    if status & 0xF0 == 0xC0 || status & 0xF0 == 0xD0 {
        1
    } else {
        2
    }
}

/// A length, as a variable-length quantity on at most 8 bytes, and the
/// payload of that length behind it: the bytes of both.
pub open spec fn spec_length_prefixed(bytes: Seq<u8>, pos: int) -> Result<
    (Seq<u8>, int),
    DecodeError,
> {
    match vlq_end(bytes, pos) {
        None => Err(DecodeError::UnexpectedEof),
        Some(end) => if end - pos > 8 {
            Err(DecodeError::VariableLengthTooLong { bytes_used: (end - pos) as usize })
        } else {
            let length = vlq_value(bytes.subrange(pos, end));
            if end + length > bytes.len() {
                Err(DecodeError::UnexpectedEof)
            } else {
                Ok((bytes.subrange(pos, end + length), end + length))
            }
        },
    }
}

/// The bytes of the event of status `status` whose body starts at `pos`.
/// A meta event (`FF`) holds its type and a length-prefixed payload, a sysex
/// event (`F0`, `F7`) a length-prefixed payload, a channel event one or two
/// data bytes. No other status starts an event.
pub open spec fn spec_event_data(bytes: Seq<u8>, pos: int, status: u8) -> Result<
    (Seq<u8>, int),
    DecodeError,
> {
    if status == 0xFF {
        if pos < 0 || pos >= bytes.len() {
            Err(DecodeError::UnexpectedEof)
        } else {
            match spec_length_prefixed(bytes, pos + 1) {
                Err(e) => Err(e),
                Ok((payload, end)) => Ok((seq![status, bytes[pos]] + payload, end)),
            }
        }
    } else if status == 0xF0 || status == 0xF7 {
        match spec_length_prefixed(bytes, pos) {
            Err(e) => Err(e),
            Ok((payload, end)) => Ok((seq![status] + payload, end)),
        }
    } else if is_channel_status(status) {
        let end = pos + channel_data_len(status);
        if pos < 0 || end > bytes.len() {
            Err(DecodeError::UnexpectedEof)
        } else {
            Ok((seq![status] + bytes.subrange(pos, end), end))
        }
    } else {
        Err(DecodeError::UnknownEvent { status })
    }
}

/// The event at `pos`: its delta-time in ticks, then its status or none, then
/// its body.
pub open spec fn spec_event(bytes: Seq<u8>, pos: int, last_status: u8) -> Result<
    (RawEvent, int),
    DecodeError,
> {
    match spec_relative_time(bytes, pos) {
        Err(e) => Err(e),
        Ok((delta, body)) => match spec_status(bytes, body, last_status) {
            Err(e) => Err(e),
            Ok((status, data_start)) => match spec_event_data(bytes, data_start, status) {
                Err(e) => Err(e),
                Ok((data, end)) => Ok((RawEvent { time: delta as u64, data }, end)),
            },
        },
    }
}

/// What reading an event leaves behind: as `reads`, for a result that is
/// compared by its view.
pub open spec fn reads_event(
    before: ByteCursor,
    after: ByteCursor,
    res: Result<MidiEvent, DecodeError>,
    expected: Result<(RawEvent, int), DecodeError>,
) -> bool {
    &&& after.bytes() == before.bytes()
    &&& match expected {
        Ok((v, end)) => (res matches Ok(event) && event@ == v) && after.offset() == end,
        Err(e) => (res matches Err(err) && err == e) && after == before,
    }
}

/// Appends to `data` a length-prefixed payload read from the cursor.
fn read_length_prefixed(cursor: &mut ByteCursor, data: &mut Vec<u8>) -> (res: Result<
    (),
    DecodeError,
>)
    ensures
        final(cursor).bytes() == old(cursor).bytes(),
        match spec_length_prefixed(old(cursor).bytes(), old(cursor).offset()) {
            Ok((payload, end)) => res == Ok::<(), DecodeError>(()) && final(cursor).offset() == end
                && final(data)@ == old(data)@ + payload,
            Err(e) => res == Err::<(), DecodeError>(e) && *final(cursor) == *old(cursor),
        },
{
    let mut c = *cursor;
    let ghost bytes = cursor.bytes();
    let ghost start = cursor.offset();
    proof {
        lemma_vlq_end_bounds(bytes, start);
    }
    let length_array = get_variable_length_array(&mut c)?;
    let length = get_variable_length_value(length_array.as_slice())?;
    if length > c.remaining() as u64 {
        return Err(DecodeError::UnexpectedEof);
    }
    let payload = c.read_exact(length as usize)?;
    data.extend_from_slice(length_array.as_slice());
    data.extend_from_slice(payload);
    *cursor = c;
    Ok(())
}

/// Reads one event: its delta-time, its status unless it runs on that of the
/// event before, and its body. The time of the event read is its delta-time.
pub fn get_event(cursor: &mut ByteCursor, last_status_byte: u8) -> (res: Result<
    MidiEvent,
    DecodeError,
>)
    ensures
        reads_event(
            *old(cursor),
            *final(cursor),
            res,
            spec_event(old(cursor).bytes(), old(cursor).offset(), last_status_byte),
        ),
{
    let mut c = *cursor;
    let ghost bytes = cursor.bytes();
    let ghost start = cursor.offset();
    proof {
        lemma_vlq_end_bounds(bytes, start);
    }
    let ticks = get_relative_time(&mut c)?;
    let first = c.peek_byte()?;
    let event_type = if (first & 0x80) == 0 {
        last_status_byte
    } else {
        c.seek_relative(1)?;
        first
    };
    let ghost data_start = c.offset();
    let mut data: Vec<u8> = Vec::new();
    data.push(event_type);
    if event_type == 0xFF {
        let meta_type = c.read_one_byte()?;
        data.push(meta_type);
    }
    if event_type == 0xFF || event_type == 0xF0 || event_type == 0xF7 {
        let ghost head = data@;
        assert(head == if event_type == 0xFF {
            seq![event_type, bytes[data_start]]
        } else {
            seq![event_type]
        });
        read_length_prefixed(&mut c, &mut data)?;
        *cursor = c;
        return Ok(MidiEvent { time: ticks as u64, data });
    }
    if (event_type & 0xF0) >= 0x80 && (event_type & 0xF0) != 0xF0 {
        let count: usize = if (event_type & 0xF0) == 0xC0 || (event_type & 0xF0) == 0xD0 {
            1
        } else {
            2
        };
        let payload = c.read_exact(count)?;
        data.extend_from_slice(payload);
        assert(data@ == seq![event_type] + bytes.subrange(data_start, data_start + count));
        *cursor = c;
        return Ok(MidiEvent { time: ticks as u64, data });
    }
    Err(DecodeError::UnknownEvent { status: event_type })
}

/// A tempo event: a meta event of type `51`.
pub open spec fn is_tempo_event(data: Seq<u8>) -> bool {
    data.len() >= 2 && data[0] == 0xFF && data[1] == 0x51
}

/// The event that ends a track: a meta event of type `2F`.
pub open spec fn is_end_of_track(data: Seq<u8>) -> bool {
    data.len() >= 2 && data[0] == 0xFF && data[1] == 0x2F
}

/// An event ends behind its start and within the bytes, and holds at least
/// two bytes, the first of them its status.
pub proof fn lemma_event_advances(bytes: Seq<u8>, pos: int, last_status: u8)
    ensures
        spec_event(bytes, pos, last_status) matches Ok((event, end)) ==> 0 <= pos < end
            <= bytes.len() && event.data.len() >= 2,
{
    lemma_vlq_end_bounds(bytes, pos);
    if let Ok((delta, body)) = spec_relative_time(bytes, pos) {
        if let Ok((status, data_start)) = spec_status(bytes, body, last_status) {
            lemma_vlq_end_bounds(bytes, data_start);
            lemma_vlq_end_bounds(bytes, data_start + 1);
        }
    }
}

/// `events` in front of the events that `rest` holds, or the error of `rest`.
pub open spec fn prepend_events(
    events: Seq<RawEvent>,
    rest: Result<(Seq<RawEvent>, int), DecodeError>,
) -> Result<(Seq<RawEvent>, int), DecodeError> {
    match rest {
        Ok((more, end)) => Ok((events + more, end)),
        Err(e) => Err(e),
    }
}

/// The events of a track from `pos` up to and with its end-of-track event,
/// each at the sum of the delta-times up to it, `ticks` being the time of the
/// event before `pos` and `last_status` its status.
pub open spec fn spec_track_events(
    bytes: Seq<u8>,
    pos: int,
    last_status: u8,
    ticks: u64,
    fail_on_tempo_event: bool,
) -> Result<(Seq<RawEvent>, int), DecodeError>
    decreases bytes.len() - pos,
    via spec_track_events_decreases
{
    match spec_event(bytes, pos, last_status) {
        Err(e) => Err(e),
        Ok((event, next)) => {
            if ticks + event.time > u64::MAX {
                Err(DecodeError::TimeOverflow)
            } else if is_tempo_event(event.data) && fail_on_tempo_event {
                Err(DecodeError::TempoEventForbidden)
            } else {
                let timed = RawEvent { time: (ticks + event.time) as u64, data: event.data };
                if is_end_of_track(event.data) {
                    Ok((seq![timed], next))
                } else {
                    prepend_events(
                        seq![timed],
                        spec_track_events(
                            bytes,
                            next,
                            event.data[0],
                            timed.time,
                            fail_on_tempo_event,
                        ),
                    )
                }
            }
        },
    }
}

#[via_fn]
proof fn spec_track_events_decreases(
    bytes: Seq<u8>,
    pos: int,
    last_status: u8,
    ticks: u64,
    fail_on_tempo_event: bool,
) {
    lemma_event_advances(bytes, pos, last_status);
}

/// Every event holds at least two bytes, the first of them its status.
pub open spec fn have_status(events: Seq<RawEvent>) -> bool {
    forall|i: int| 0 <= i < events.len() ==> (#[trigger] events[i]).data.len() >= 2
}

/// Every event of a track holds at least two bytes, and the track ends
/// within the bytes.
pub proof fn lemma_track_events_have_status(
    bytes: Seq<u8>,
    pos: int,
    last_status: u8,
    ticks: u64,
    fail_on_tempo_event: bool,
)
    ensures
        spec_track_events(bytes, pos, last_status, ticks, fail_on_tempo_event) matches Ok(
            (events, end),
        ) ==> have_status(events) && pos < end <= bytes.len(),
    decreases bytes.len() - pos,
{
    lemma_event_advances(bytes, pos, last_status);
    if let Ok((event, next)) = spec_event(bytes, pos, last_status) {
        if ticks + event.time <= u64::MAX && !(is_tempo_event(event.data) && fail_on_tempo_event)
            && !is_end_of_track(event.data) {
            lemma_track_events_have_status(
                bytes,
                next,
                event.data[0],
                (ticks + event.time) as u64,
                fail_on_tempo_event,
            );
        }
    }
}

/// The four bytes `MThd` that open a file.
pub open spec fn header_magic() -> Seq<u8> {
    seq![0x4Du8, 0x54u8, 0x68u8, 0x64u8]
}

/// The four bytes `MTrk` that open a track.
pub open spec fn track_magic() -> Seq<u8> {
    seq![0x4Du8, 0x54u8, 0x72u8, 0x6Bu8]
}

/// The track chunk at `pos`: `MTrk`, the length of what follows on 4 bytes,
/// and events up to an end-of-track event, which take up exactly that length.
pub open spec fn spec_track(bytes: Seq<u8>, pos: int, fail_on_tempo_event: bool) -> Result<
    (Seq<RawEvent>, int),
    DecodeError,
> {
    if pos < 0 || pos + 4 > bytes.len() {
        Err(DecodeError::UnexpectedEof)
    } else if bytes.subrange(pos, pos + 4) != track_magic() {
        Err(DecodeError::BadTrackMagic)
    } else if pos + 8 > bytes.len() {
        Err(DecodeError::UnexpectedEof)
    } else {
        let declared = be_u32(bytes.subrange(pos + 4, pos + 8));
        match spec_track_events(bytes, pos + 8, 0, 0, fail_on_tempo_event) {
            Err(e) => Err(e),
            Ok((events, end)) => if end - (pos + 8) != declared {
                Err(
                    DecodeError::TrackLengthMismatch {
                        declared: declared as u32,
                        consumed: (end - (pos + 8)) as usize,
                    },
                )
            } else {
                Ok((events, end))
            },
        }
    }
}

/// Whether the bytes read are the four expected.
pub fn is_header_correct(actual_buffer: &[u8], expected: &[u8; 4]) -> (b: bool)
    ensures
        b == (actual_buffer@ == expected@),
{
    if actual_buffer.len() != 4 {
        return false;
    }
    let mut i: usize = 0;
    while i < 4
        invariant
            i <= 4,
            actual_buffer@.len() == 4,
            forall|j: int| 0 <= j < i ==> actual_buffer@[j] == expected@[j],
        decreases 4 - i,
    {
        if actual_buffer[i] != expected[i] {
            return false;
        }
        i += 1;
    }
    assert(actual_buffer@ =~= expected@);
    true
}

/// Reads the events of one track chunk and appends them to `res`, each at its
/// time in ticks since the start of the track. With `fail_on_tempo_event`, a
/// tempo event in the track is an error.
pub fn get_track_events(
    res: &mut Vec<MidiEvent>,
    cursor: &mut ByteCursor,
    fail_on_tempo_event: bool,
) -> (r: Result<(), DecodeError>)
    ensures
        final(cursor).bytes() == old(cursor).bytes(),
        match spec_track(old(cursor).bytes(), old(cursor).offset(), fail_on_tempo_event) {
            Ok((events, end)) => r == Ok::<(), DecodeError>(()) && final(cursor).offset() == end
                && final(res).deep_view() == old(res).deep_view() + events,
            Err(e) => r == Err::<(), DecodeError>(e) && *final(cursor) == *old(cursor)
                && *final(res) == *old(res),
        },
{
    let mut c = *cursor;
    let ghost bytes = cursor.bytes();
    let ghost start = cursor.offset();
    proof {
        use_type_invariant(&c);
    }
    let track_buffer = c.read_exact(4)?;
    let track_header: [u8; 4] = [0x4D, 0x54, 0x72, 0x6B];
    if !is_header_correct(track_buffer, &track_header) {
        return Err(DecodeError::BadTrackMagic);
    }
    let track_length: u32 = c.read_u32_be()?;
    let track_start: usize = c.position();

    let mut track: Vec<MidiEvent> = Vec::new();
    let mut last_status_byte: u8 = 0x00;
    let mut this_time: u64 = 0;
    loop
        invariant_except_break
            spec_track_events(bytes, track_start as int, 0, 0, fail_on_tempo_event)
                == prepend_events(
                track.deep_view(),
                spec_track_events(
                    bytes,
                    c.offset(),
                    last_status_byte,
                    this_time,
                    fail_on_tempo_event,
                ),
            ),
        invariant
            c.bytes() == bytes,
            *cursor == *old(cursor),
            *res == *old(res),
            bytes == old(cursor).bytes(),
            start == old(cursor).offset(),
            0 <= start,
            bytes.subrange(start, start + 4) == track_magic(),
            start + 8 == track_start <= c.offset() <= bytes.len(),
        ensures
            c.bytes() == bytes,
            *cursor == *old(cursor),
            *res == *old(res),
            spec_track_events(bytes, track_start as int, 0, 0, fail_on_tempo_event) == Ok::<
                (Seq<RawEvent>, int),
                DecodeError,
            >((track.deep_view(), c.offset())),
        decreases bytes.len() - c.offset(),
    {
        proof {
            lemma_event_advances(bytes, c.offset(), last_status_byte);
        }
        let ghost before = track.deep_view();
        let event = get_event(&mut c, last_status_byte)?;
        let time = match this_time.checked_add(event.time) {
            Some(t) => t,
            None => {
                return Err(DecodeError::TimeOverflow);
            },
        };
        let event = MidiEvent { time, data: event.data };
        this_time = time;
        last_status_byte = event.data[0];
        if event.data[0] == 0xFF && event.data[1] == 0x51 && fail_on_tempo_event {
            return Err(DecodeError::TempoEventForbidden);
        }
        let end_of_track_found = event.data[0] == 0xFF && event.data[1] == 0x2F;
        let ghost pushed = event@;
        track.push(event);
        assert(track.deep_view() == before + seq![pushed]);
        if end_of_track_found {
            break;
        }
        assert forall|more: Seq<RawEvent>| before + (seq![pushed] + more) == before + seq![pushed]
            + more by {}
    }
    let track_end: usize = c.position();
    if (track_end - track_start) as u64 != track_length as u64 {
        return Err(
            DecodeError::TrackLengthMismatch {
                declared: track_length,
                consumed: track_end - track_start,
            },
        );
    }
    res.append(&mut track);
    *cursor = c;
    Ok(())
}

/// The format that a file's header announces.
#[derive(Clone, Copy, Debug, PartialEq, Eq)]
pub enum MidiType {
    SingleTrack,
    MultipleTrack,
    /// A series of single-track songs.
    MultipleSong,
}

/// How the ticks of a file measure time.
#[derive(Clone, Copy, Debug, PartialEq, Eq)]
pub enum TempoStyle {
    /// Ticks divide a quarter note, whose length the tempo events set.
    MetricalTiming,
    /// Ticks divide a frame of a fixed rate.
    Timecode,
}

/// What the header chunk of a file says.
#[derive(Clone, Copy, Debug, PartialEq, Eq)]
pub struct MidiHeader {
    pub midi_type: MidiType,
    pub nb_tracks: u16,
    pub tickdiv: u16,
    pub tempo_style: TempoStyle,
}

/// The magic number at `pos`: the four bytes `MThd`.
pub open spec fn spec_magic_number(bytes: Seq<u8>, pos: int) -> Result<((), int), DecodeError> {
    if pos < 0 || pos + 4 > bytes.len() {
        Err(DecodeError::UnexpectedEof)
    } else if bytes.subrange(pos, pos + 4) != header_magic() {
        Err(DecodeError::BadHeaderMagic)
    } else {
        Ok(((), pos + 4))
    }
}

/// The length of the header at `pos`: four bytes that spell 6.
pub open spec fn spec_header_size(bytes: Seq<u8>, pos: int) -> Result<((), int), DecodeError> {
    if pos < 0 || pos + 4 > bytes.len() {
        Err(DecodeError::UnexpectedEof)
    } else if be_u32(bytes.subrange(pos, pos + 4)) != 6 {
        Err(DecodeError::InvalidHeaderSize { size: be_u32(bytes.subrange(pos, pos + 4)) as u32 })
    } else {
        Ok(((), pos + 4))
    }
}

/// The format at `pos`: two bytes that spell 0, 1 or 2.
pub open spec fn spec_midi_type(bytes: Seq<u8>, pos: int) -> Result<(MidiType, int), DecodeError> {
    if pos < 0 || pos + 2 > bytes.len() {
        Err(DecodeError::UnexpectedEof)
    } else {
        let found = be_u16(bytes.subrange(pos, pos + 2));
        if found == 0 {
            Ok((MidiType::SingleTrack, pos + 2))
        } else if found == 1 {
            Ok((MidiType::MultipleTrack, pos + 2))
        } else if found == 2 {
            Ok((MidiType::MultipleSong, pos + 2))
        } else {
            Err(DecodeError::InvalidMidiType { midi_type: found as u16 })
        }
    }
}

/// The number of tracks at `pos`, on two bytes.
pub open spec fn spec_nb_tracks(bytes: Seq<u8>, pos: int) -> Result<(u16, int), DecodeError> {
    if pos < 0 || pos + 2 > bytes.len() {
        Err(DecodeError::UnexpectedEof)
    } else {
        Ok((be_u16(bytes.subrange(pos, pos + 2)) as u16, pos + 2))
    }
}

/// What the two bytes of a division mean. With the high bit of the first
/// clear, both spell the ticks of a quarter note. With it set, the first is
/// the negative of a frame rate, one of 24, 25, 29 and 30, the second the
/// ticks of a frame, and the division is their product.
pub open spec fn spec_division(first: u8, second: u8) -> Result<(u16, TempoStyle), DecodeError> {
    if first < 0x80 {
        Ok(((first * 0x100 + second) as u16, TempoStyle::MetricalTiming))
    } else {
        let frames_per_second = 0x100 - first;
        if frames_per_second == 24 || frames_per_second == 25 || frames_per_second == 29
            || frames_per_second == 30 {
            Ok(((second * frames_per_second) as u16, TempoStyle::Timecode))
        } else {
            Err(DecodeError::InvalidFrameRate { first_byte: first })
        }
    }
}

/// The division at `pos`, on two bytes.
pub open spec fn spec_tickdiv(bytes: Seq<u8>, pos: int) -> Result<
    ((u16, TempoStyle), int),
    DecodeError,
> {
    if pos < 0 || pos + 2 > bytes.len() {
        Err(DecodeError::UnexpectedEof)
    } else {
        match spec_division(bytes[pos], bytes[pos + 1]) {
            Err(e) => Err(e),
            Ok(division) => Ok((division, pos + 2)),
        }
    }
}

/// The header chunk at `pos`: `MThd`, the length 6, a format other than a
/// series of songs, the number of tracks, which is 1 in a single-track file,
/// and a division other than 0.
pub open spec fn spec_header(bytes: Seq<u8>, pos: int) -> Result<(MidiHeader, int), DecodeError> {
    match spec_magic_number(bytes, pos) {
        Err(e) => Err(e),
        Ok((_, size_at)) => match spec_header_size(bytes, size_at) {
            Err(e) => Err(e),
            Ok((_, type_at)) => match spec_midi_type(bytes, type_at) {
                Err(e) => Err(e),
                Ok((midi_type, count_at)) => if midi_type == MidiType::MultipleSong {
                    Err(DecodeError::UnsupportedMultipleSong)
                } else {
                    match spec_nb_tracks(bytes, count_at) {
                        Err(e) => Err(e),
                        Ok((nb_tracks, division_at)) => if midi_type == MidiType::SingleTrack
                            && nb_tracks != 1 {
                            Err(DecodeError::SingleTrackCount { nb_tracks })
                        } else {
                            match spec_tickdiv(bytes, division_at) {
                                Err(e) => Err(e),
                                Ok(((tickdiv, tempo_style), end)) => if tickdiv == 0 {
                                    Err(DecodeError::ZeroTickdiv)
                                } else {
                                    let header = MidiHeader {
                                        midi_type,
                                        nb_tracks,
                                        tickdiv,
                                        tempo_style,
                                    };
                                    Ok((header, end))
                                },
                            }
                        },
                    }
                },
            },
        },
    }
}

/// The track chunks from number `index` on, the first of them at `pos`, of a
/// file of `nb_tracks` tracks: their events, one track after the other. In a
/// multi-track file only the first track may hold tempo events.
pub open spec fn spec_tracks(
    bytes: Seq<u8>,
    pos: int,
    multiple_track: bool,
    index: int,
    nb_tracks: int,
) -> Result<(Seq<RawEvent>, int), DecodeError>
    decreases nb_tracks - index,
{
    if index >= nb_tracks {
        Ok((Seq::empty(), pos))
    } else {
        match spec_track(bytes, pos, multiple_track && index != 0) {
            Err(e) => Err(e),
            Ok((events, next)) => prepend_events(
                events,
                spec_tracks(bytes, next, multiple_track, index + 1, nb_tracks),
            ),
        }
    }
}

/// Every event of the tracks holds at least two bytes.
pub proof fn lemma_tracks_have_status(
    bytes: Seq<u8>,
    pos: int,
    multiple_track: bool,
    index: int,
    nb_tracks: int,
)
    ensures
        spec_tracks(bytes, pos, multiple_track, index, nb_tracks) matches Ok((events, _))
            ==> have_status(events),
    decreases nb_tracks - index,
{
    if index < nb_tracks {
        if let Ok((events, next)) = spec_track(bytes, pos, multiple_track && index != 0) {
            lemma_track_events_have_status(bytes, pos + 8, 0, 0, multiple_track && index != 0);
            lemma_tracks_have_status(bytes, next, multiple_track, index + 1, nb_tracks);
        }
    }
}

/// A whole file: the header chunk, then as many track chunks as it announces,
/// then nothing. The events are those of all tracks, one track after the
/// other, each at its time in ticks since the start of its track.
pub open spec fn spec_midi_file(bytes: Seq<u8>) -> Result<
    (MidiHeader, Seq<RawEvent>),
    DecodeError,
> {
    match spec_header(bytes, 0) {
        Err(e) => Err(e),
        Ok((header, tracks_at)) => match spec_tracks(
            bytes,
            tracks_at,
            header.midi_type == MidiType::MultipleTrack,
            0,
            header.nb_tracks as int,
        ) {
            Err(e) => Err(e),
            Ok((events, end)) => if end != bytes.len() {
                Err(DecodeError::TrailingBytes)
            } else {
                Ok((header, events))
            },
        },
    }
}

/// Reads the four bytes `MThd`.
pub fn read_magic_number(cursor: &mut ByteCursor) -> (res: Result<(), DecodeError>)
    ensures
        reads(
            *old(cursor),
            *final(cursor),
            res,
            spec_magic_number(old(cursor).bytes(), old(cursor).offset()),
        ),
{
    let mut c = *cursor;
    proof {
        use_type_invariant(&c);
    }
    let header_buffer = c.read_exact(4)?;
    let midi_header: [u8; 4] = [0x4D, 0x54, 0x68, 0x64];
    if !is_header_correct(header_buffer, &midi_header) {
        return Err(DecodeError::BadHeaderMagic);
    }
    *cursor = c;
    Ok(())
}

/// Reads the length of the header, which is 6.
pub fn read_header_size(cursor: &mut ByteCursor) -> (res: Result<(), DecodeError>)
    ensures
        reads(
            *old(cursor),
            *final(cursor),
            res,
            spec_header_size(old(cursor).bytes(), old(cursor).offset()),
        ),
{
    let mut c = *cursor;
    proof {
        use_type_invariant(&c);
    }
    let size = c.read_u32_be()?;
    if size != 6 {
        return Err(DecodeError::InvalidHeaderSize { size });
    }
    *cursor = c;
    Ok(())
}

/// Reads the format of the file.
pub fn read_midi_type(cursor: &mut ByteCursor) -> (res: Result<MidiType, DecodeError>)
    ensures
        reads(
            *old(cursor),
            *final(cursor),
            res,
            spec_midi_type(old(cursor).bytes(), old(cursor).offset()),
        ),
{
    let mut c = *cursor;
    proof {
        use_type_invariant(&c);
    }
    let found = c.read_u16_be()?;
    let midi_type = if found == 0 {
        MidiType::SingleTrack
    } else if found == 1 {
        MidiType::MultipleTrack
    } else if found == 2 {
        MidiType::MultipleSong
    } else {
        return Err(DecodeError::InvalidMidiType { midi_type: found });
    };
    *cursor = c;
    Ok(midi_type)
}

/// Reads the number of tracks.
pub fn read_nb_tracks(cursor: &mut ByteCursor) -> (res: Result<u16, DecodeError>)
    ensures
        reads(
            *old(cursor),
            *final(cursor),
            res,
            spec_nb_tracks(old(cursor).bytes(), old(cursor).offset()),
        ),
{
    proof {
        use_type_invariant(&*cursor);
    }
    cursor.read_u16_be()
}

/// Reads the division: the number of ticks in a quarter note or in a second
/// of frames, and which of the two it is.
pub fn get_tickdiv(cursor: &mut ByteCursor) -> (res: Result<(u16, TempoStyle), DecodeError>)
    ensures
        reads(
            *old(cursor),
            *final(cursor),
            res,
            spec_tickdiv(old(cursor).bytes(), old(cursor).offset()),
        ),
{
    let mut c = *cursor;
    proof {
        use_type_invariant(&c);
    }
    let bytes = c.read_exact(2)?;
    let first: u8 = bytes[0];
    let second: u8 = bytes[1];
    if first < 0x80 {
        let tickdiv: u16 = first as u16 * 0x100 + second as u16;
        *cursor = c;
        Ok((tickdiv, TempoStyle::MetricalTiming))
    } else {
        let frames_per_sec: u16 = 0x100 - first as u16;
        if frames_per_sec == 24 || frames_per_sec == 25 || frames_per_sec == 29 || frames_per_sec
            == 30 {
            assert(second * frames_per_sec <= 255 * 30) by (nonlinear_arith)
                requires
                    second <= 255,
                    frames_per_sec <= 30,
            ;
            let res: u16 = second as u16 * frames_per_sec;
            *cursor = c;
            Ok((res, TempoStyle::Timecode))
        } else {
            Err(DecodeError::InvalidFrameRate { first_byte: first })
        }
    }
}

/// Reads the header chunk.
pub fn read_header(cursor: &mut ByteCursor) -> (res: Result<MidiHeader, DecodeError>)
    ensures
        reads(
            *old(cursor),
            *final(cursor),
            res,
            spec_header(old(cursor).bytes(), old(cursor).offset()),
        ),
{
    let mut c = *cursor;
    read_magic_number(&mut c)?;
    read_header_size(&mut c)?;
    let midi_type = read_midi_type(&mut c)?;
    if let MidiType::MultipleSong = midi_type {
        return Err(DecodeError::UnsupportedMultipleSong);
    }
    let nb_tracks = read_nb_tracks(&mut c)?;
    if let MidiType::SingleTrack = midi_type {
        if nb_tracks != 1 {
            return Err(DecodeError::SingleTrackCount { nb_tracks });
        }
    }
    let (tickdiv, tempo_style) = get_tickdiv(&mut c)?;
    if tickdiv == 0 {
        return Err(DecodeError::ZeroTickdiv);
    }
    *cursor = c;
    Ok(MidiHeader { midi_type, nb_tracks, tickdiv, tempo_style })
}

/// Decodes a whole file into its header and the events of its tracks, one
/// track after the other, each event at its time in ticks.
pub fn parse_midi_file(data: &[u8]) -> (res: Result<(MidiHeader, Vec<MidiEvent>), DecodeError>)
    ensures
        match spec_midi_file(data@) {
            Ok((header, events)) => res matches Ok((h, v)) && h == header && v.deep_view()
                == events && have_status(events),
            Err(e) => res matches Err(err) && err == e,
        },
{
    proof {
        if let Ok((header, tracks_at)) = spec_header(data@, 0) {
            lemma_tracks_have_status(
                data@,
                tracks_at,
                header.midi_type == MidiType::MultipleTrack,
                0,
                header.nb_tracks as int,
            );
        }
    }
    let mut cursor = ByteCursor::new(data);
    let header = read_header(&mut cursor)?;
    let multiple_track = match header.midi_type {
        MidiType::MultipleTrack => true,
        _ => false,
    };
    let ghost tracks_at = cursor.offset();
    let mut events: Vec<MidiEvent> = Vec::new();
    let mut i: u16 = 0;
    while i < header.nb_tracks
        invariant
            i <= header.nb_tracks,
            cursor.bytes() == data@,
            spec_header(data@, 0) == Ok::<(MidiHeader, int), DecodeError>((header, tracks_at)),
            multiple_track == (header.midi_type == MidiType::MultipleTrack),
            spec_tracks(data@, tracks_at, multiple_track, 0, header.nb_tracks as int)
                == prepend_events(
                events.deep_view(),
                spec_tracks(
                    data@,
                    cursor.offset(),
                    multiple_track,
                    i as int,
                    header.nb_tracks as int,
                ),
            ),
        decreases header.nb_tracks - i,
    {
        let ghost before = events.deep_view();
        let ghost track = spec_track(data@, cursor.offset(), multiple_track && i != 0);
        get_track_events(&mut events, &mut cursor, multiple_track && i != 0)?;
        assert forall|more: Seq<RawEvent>| before + (track->Ok_0.0 + more) == before
            + track->Ok_0.0 + more by {}
        i += 1;
    }
    if cursor.remaining() != 0 {
        return Err(DecodeError::TrailingBytes);
    }
    Ok((header, events))
}

/// An event that a device plays: its status is that of a channel event, not
/// of a meta or sysex event.
pub open spec fn is_device_event(event: RawEvent) -> bool {
    event.data.len() > 0 && event.data[0] & 0xF0 != 0xF0
}

/// The test that an event is one that a device plays.
pub open spec fn device_events() -> spec_fn(RawEvent) -> bool {
    |event: RawEvent| is_device_event(event)
}

/// What a file decodes to: the events of all its tracks in ascending order of
/// their time in ticks, events of one tick in the order of the file; then each
/// at its time in nanoseconds; then those among them that a device plays.
pub open spec fn spec_get_midi_events(bytes: Seq<u8>) -> Result<Seq<RawEvent>, DecodeError> {
    match spec_midi_file(bytes) {
        Err(e) => Err(e),
        Ok((header, events)) => match spec_real_timings(
            sort_by_key(events, raw_time()),
            header.tickdiv,
            header.tempo_style,
        ) {
            Err(e) => Err(e),
            Ok(timed) => Ok(timed.filter(device_events())),
        },
    }
}

/// A file whose header announces a length other than 6 is refused for it.
pub proof fn lemma_header_size_is_checked(bytes: Seq<u8>)
    requires
        bytes.len() >= 8,
        bytes.subrange(0, 4) == header_magic(),
        be_u32(bytes.subrange(4, 8)) != 6,
    ensures
        spec_get_midi_events(bytes) == Err::<Seq<RawEvent>, DecodeError>(
            DecodeError::InvalidHeaderSize { size: be_u32(bytes.subrange(4, 8)) as u32 },
        ),
{
}

/// A track whose events do not take up the length that it announces is
/// refused for it.
pub proof fn lemma_track_length_is_checked(bytes: Seq<u8>, pos: int, fail_on_tempo_event: bool)
    requires
        0 <= pos,
        pos + 8 <= bytes.len(),
        bytes.subrange(pos, pos + 4) == track_magic(),
        spec_track_events(bytes, pos + 8, 0, 0, fail_on_tempo_event) matches Ok((_, end)) && end
            - (pos + 8) != be_u32(bytes.subrange(pos + 4, pos + 8)),
    ensures
        spec_track(bytes, pos, fail_on_tempo_event) == Err::<(Seq<RawEvent>, int), DecodeError>(
            DecodeError::TrackLengthMismatch {
                declared: be_u32(bytes.subrange(pos + 4, pos + 8)) as u32,
                consumed: (spec_track_events(bytes, pos + 8, 0, 0, fail_on_tempo_event)->Ok_0.1
                    - (pos + 8)) as usize,
            },
        ),
{
}

/// Where the tracks before number `index` are read and the track of that
/// number is refused, the tracks are refused for the same reason.
pub proof fn lemma_track_error_is_tracks_error(
    bytes: Seq<u8>,
    start: int,
    multiple_track: bool,
    first: int,
    index: int,
    nb_tracks: int,
)
    requires
        first <= index < nb_tracks,
        spec_tracks(bytes, start, multiple_track, first, index) matches Ok((_, pos)) && spec_track(
            bytes,
            pos,
            multiple_track && index != 0,
        ) is Err,
    ensures
        spec_tracks(bytes, start, multiple_track, first, nb_tracks) == Err::<
            (Seq<RawEvent>, int),
            DecodeError,
        >(
            spec_track(
                bytes,
                spec_tracks(bytes, start, multiple_track, first, index)->Ok_0.1,
                multiple_track && index != 0,
            )->Err_0,
        ),
    decreases index - first,
{
    if first < index {
        let next = spec_track(bytes, start, multiple_track && first != 0)->Ok_0.1;
        lemma_track_error_is_tracks_error(
            bytes,
            next,
            multiple_track,
            first + 1,
            index,
            nb_tracks,
        );
    }
}

/// A file with a track that is refused, behind tracks that are read, is
/// refused for the same reason: so a file with a track whose events do not
/// take up the length that it announces.
pub proof fn lemma_track_error_is_file_error(bytes: Seq<u8>, index: int)
    requires
        spec_header(bytes, 0) matches Ok((header, start)) && 0 <= index < header.nb_tracks && (
        spec_tracks(bytes, start, header.midi_type == MidiType::MultipleTrack, 0, index) matches Ok(
            (_, pos),
        ) && spec_track(bytes, pos, header.midi_type == MidiType::MultipleTrack && index != 0)
            is Err),
    ensures
        ({
            let (header, start) = spec_header(bytes, 0)->Ok_0;
            let multiple_track = header.midi_type == MidiType::MultipleTrack;
            let pos = spec_tracks(bytes, start, multiple_track, 0, index)->Ok_0.1;
            spec_get_midi_events(bytes) == Err::<Seq<RawEvent>, DecodeError>(
                spec_track(bytes, pos, multiple_track && index != 0)->Err_0,
            )
        }),
{
    let (header, start) = spec_header(bytes, 0)->Ok_0;
    lemma_track_error_is_tracks_error(
        bytes,
        start,
        header.midi_type == MidiType::MultipleTrack,
        0,
        index,
        header.nb_tracks as int,
    );
}

/// Decodes the bytes of a Standard MIDI File into the events that a device
/// plays, in ascending order of time, each at its time in nanoseconds since
/// the start of the song.
pub fn get_midi_events(data: &[u8]) -> (res: Result<Vec<MidiEvent>, DecodeError>)
    ensures
        match spec_get_midi_events(data@) {
            Ok(events) => res matches Ok(v) && v.deep_view() == events && is_sorted_by(
                events,
                raw_time(),
            ) && forall|i: int| 0 <= i < events.len() ==> is_device_event(#[trigger] events[i]),
            Err(e) => res matches Err(err) && err == e,
        },
{
    let (header, events) = parse_midi_file(data)?;
    let ghost parsed = events.deep_view();
    proof {
        assert(parsed == events@.map_values(|e: MidiEvent| e.deep_view()));
        lemma_sort_map_values(
            events@,
            |e: MidiEvent| e.deep_view(),
            time_key::<MidiEvent>(),
            raw_time(),
        );
        lemma_sort_is_sorted(parsed, raw_time());
    }
    let sorted = sort_by_time(events);
    assert(sorted.deep_view() == sorted@.map_values(|e: MidiEvent| e.deep_view()));
    let timed = set_real_timings(sorted, header.tickdiv, header.tempo_style)?;

    let ghost all = timed.deep_view();
    let mut res: Vec<MidiEvent> = Vec::new();
    assert(res.deep_view() == all.take(0).filter(device_events())) by {
        reveal(Seq::filter);
    }
    for event in it: timed
        invariant
            it.seq() == timed@,
            all == timed.deep_view(),
            res.deep_view() == all.take(it.index() as int).filter(device_events()),
    {
        let ghost index = it.index() as int;
        proof {
            assert(all.take(index + 1) == all.take(index).push(event@));
            all.take(index).lemma_filter_push(event@, device_events());
        }
        if event.data.len() > 0 && (event.data[0] & 0xF0) != 0xF0 {
            res.push(event);
        }
    }
    proof {
        assert(all.take(all.len() as int) == all);
        lemma_filter_keeps_sorted(all, raw_time(), device_events());
        assert forall|i: int| 0 <= i < all.filter(device_events()).len() implies is_device_event(
            #[trigger] all.filter(device_events())[i],
        ) by {
            all.lemma_filter_pred(device_events(), i);
        }
    }
    Ok(res)
}

} // verus!
