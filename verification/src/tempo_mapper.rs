//! From ticks to nanoseconds: the tempo map of a file applied to its events.

use vstd::prelude::*;
use crate::byte_cursor::ByteCursor;
use crate::errors::DecodeError;
use crate::midi_reader::{
    get_variable_length_array, get_variable_length_value, is_tempo_event, lemma_vlq_end_bounds,
    raw_time, vlq_end, vlq_value, MidiEvent, RawEvent, TempoStyle,
};
use crate::stable_sort::is_sorted_by;

verus! {

/// The tempo in force and the moment from which it is.
#[derive(Clone, Copy, Debug, PartialEq, Eq)]
pub struct TempoState {
    /// The tick of the last tempo event, 0 before the first.
    pub reference_ticks: u64,
    /// The time of that tick in nanoseconds.
    pub reference_time_ns: u64,
    pub microseconds_per_quarter_note: u32,
}

/// The state at the start of a file: 120 quarter notes a minute.
pub open spec fn initial_tempo_state() -> TempoState {
    TempoState { reference_ticks: 0, reference_time_ns: 0, microseconds_per_quarter_note: 500_000 }
}

/// The number that three bytes spell, most significant byte first.
pub open spec fn be_u24(b: Seq<u8>) -> int
    recommends
        b.len() >= 3,
{
    b[0] as int * 0x1_0000 + b[1] as int * 0x100 + b[2] as int
}

/// The microseconds per quarter note that a tempo event sets: its payload
/// read as a big-endian number. `None` unless the event holds, behind its
/// status and its type, the length 3 and a payload of exactly 3 bytes.
pub open spec fn spec_tempo(data: Seq<u8>) -> Option<u32> {
    match vlq_end(data, 2) {
        None => None,
        Some(end) => if end - 2 <= 8 && vlq_value(data.subrange(2, end)) == 3 && data.len() == end
            + 3 {
            Some(be_u24(data.subrange(end, end + 3)) as u32)
        } else {
            None
        },
    }
}

/// The time in nanoseconds of tick `ticks` in timecode style.
pub open spec fn timecode_time(ticks: u64, tickdiv: u16) -> int {
    ticks * tickdiv * 1_000_000
}

/// The time in nanoseconds of tick `ticks` in metrical style, under the tempo
/// of `state`: the ticks since the reference, as nanoseconds, rounded down.
pub open spec fn metrical_time(state: TempoState, ticks: u64, tickdiv: u16) -> int {
    state.reference_time_ns + ((ticks - state.reference_ticks)
        * state.microseconds_per_quarter_note * 1000) / (tickdiv as int)
}

/// `event` at time `time`.
pub open spec fn at_time(event: RawEvent, time: int) -> RawEvent {
    RawEvent { time: time as u64, data: event.data }
}

/// The events in timecode style, each at its time in nanoseconds. A time that
/// does not fit in 64 bits is an error.
pub open spec fn spec_timecode_timings(events: Seq<RawEvent>, tickdiv: u16) -> Result<
    Seq<RawEvent>,
    DecodeError,
> {
    if exists|i: int|
        0 <= i < events.len() && timecode_time(#[trigger] events[i].time, tickdiv) > u64::MAX {
        Err(DecodeError::TimeOverflow)
    } else {
        Ok(
            Seq::new(
                events.len(),
                |i: int| at_time(events[i], timecode_time(events[i].time, tickdiv)),
            ),
        )
    }
}

/// `events` in front of the events that `rest` holds, or the error of `rest`.
pub open spec fn prepend_timed(events: Seq<RawEvent>, rest: Result<Seq<RawEvent>, DecodeError>)
    -> Result<Seq<RawEvent>, DecodeError> {
    match rest {
        Ok(more) => Ok(events + more),
        Err(e) => Err(e),
    }
}

/// The state behind `event`, which stands at `time` nanoseconds: a tempo
/// event makes its own tick the reference and sets the tempo.
pub open spec fn tempo_state_after(state: TempoState, event: RawEvent, time: u64) -> TempoState {
    if is_tempo_event(event.data) && spec_tempo(event.data) is Some {
        TempoState {
            reference_ticks: event.time,
            reference_time_ns: time,
            microseconds_per_quarter_note: spec_tempo(event.data)->Some_0,
        }
    } else {
        state
    }
}

/// The events in metrical style, each at its time in nanoseconds, `state`
/// being the tempo state in front of the first. The first event whose time
/// does not fit in 64 bits, or that is a tempo event without a payload of 3
/// bytes, is an error.
pub open spec fn spec_metrical_timings(events: Seq<RawEvent>, state: TempoState, tickdiv: u16)
    -> Result<Seq<RawEvent>, DecodeError>
    decreases events.len(),
{
    if events.len() == 0 {
        Ok(Seq::empty())
    } else {
        let event = events.first();
        let time = metrical_time(state, event.time, tickdiv);
        if time > u64::MAX {
            Err(DecodeError::TimeOverflow)
        } else if is_tempo_event(event.data) && spec_tempo(event.data) is None {
            Err(DecodeError::InvalidTempoSize)
        } else {
            prepend_timed(
                seq![at_time(event, time)],
                spec_metrical_timings(
                    events.drop_first(),
                    tempo_state_after(state, event, time as u64),
                    tickdiv,
                ),
            )
        }
    }
}

/// The events with their times in nanoseconds in place of ticks.
pub open spec fn spec_real_timings(events: Seq<RawEvent>, tickdiv: u16, timing_style: TempoStyle)
    -> Result<Seq<RawEvent>, DecodeError> {
    match timing_style {
        TempoStyle::Timecode => spec_timecode_timings(events, tickdiv),
        TempoStyle::MetricalTiming => spec_metrical_timings(events, initial_tempo_state(), tickdiv),
    }
}

/// A later tick is no earlier in time.
pub proof fn lemma_metrical_time_monotonic(
    state: TempoState,
    earlier: u64,
    later: u64,
    tickdiv: u16,
)
    requires
        tickdiv > 0,
        state.reference_ticks <= earlier <= later,
    ensures
        state.reference_time_ns <= metrical_time(state, earlier, tickdiv) <= metrical_time(
            state,
            later,
            tickdiv,
        ),
{
    let per_tick = state.microseconds_per_quarter_note * 1000;
    let a = (earlier - state.reference_ticks) * state.microseconds_per_quarter_note * 1000;
    let b = (later - state.reference_ticks) * state.microseconds_per_quarter_note * 1000;
    assert(0 <= a <= b) by (nonlinear_arith)
        requires
            0 <= earlier - state.reference_ticks <= later - state.reference_ticks,
            0 <= state.microseconds_per_quarter_note,
            a == (earlier - state.reference_ticks) * state.microseconds_per_quarter_note * 1000,
            b == (later - state.reference_ticks) * state.microseconds_per_quarter_note * 1000,
    ;
    assert(0 <= a / (tickdiv as int) <= b / (tickdiv as int)) by (nonlinear_arith)
        requires
            0 <= a <= b,
            tickdiv > 0,
    ;
}

/// In metrical style the events come out one for one, with their bytes, and
/// in ascending order of time, none before the reference time.
pub proof fn lemma_metrical_timings_sorted(events: Seq<RawEvent>, state: TempoState, tickdiv: u16)
    requires
        tickdiv > 0,
        is_sorted_by(events, raw_time()),
        forall|i: int|
            0 <= i < events.len() ==> state.reference_ticks <= (#[trigger] events[i]).time,
    ensures
        spec_metrical_timings(events, state, tickdiv) matches Ok(timed) ==> timed.len()
            == events.len() && is_sorted_by(timed, raw_time()) && (forall|i: int|
            0 <= i < timed.len() ==> state.reference_time_ns <= (#[trigger] timed[i]).time
                && timed[i].data == events[i].data) && (timed.len() > 0 ==> timed[0].time
            == metrical_time(state, events[0].time, tickdiv)),
    decreases events.len(),
{
    if events.len() > 0 {
        let event = events.first();
        let time = metrical_time(state, event.time, tickdiv);
        lemma_metrical_time_monotonic(state, event.time, event.time, tickdiv);
        if let Ok(timed) = spec_metrical_timings(events, state, tickdiv) {
            let rest = events.drop_first();
            let next = tempo_state_after(state, event, time as u64);
            assert forall|i: int, j: int| 0 <= i <= j < rest.len() implies raw_time()(rest[i])
                <= raw_time()(rest[j]) by {
                assert(rest[i] == events[i + 1] && rest[j] == events[j + 1]);
            }
            assert forall|i: int| 0 <= i < rest.len() implies next.reference_ticks <= (
            #[trigger] rest[i]).time by {
                assert(rest[i] == events[i + 1]);
                assert(raw_time()(events[0]) <= raw_time()(events[i + 1]));
            }
            lemma_metrical_timings_sorted(rest, next, tickdiv);
            let timed_rest = spec_metrical_timings(rest, next, tickdiv)->Ok_0;
            assert(timed == seq![at_time(event, time)] + timed_rest);
            if rest.len() > 0 {
                assert(rest[0] == events[1]);
                assert(raw_time()(events[0]) <= raw_time()(events[1]));
                if next == state {
                    lemma_metrical_time_monotonic(state, event.time, rest[0].time, tickdiv);
                } else {
                    lemma_metrical_time_monotonic(next, event.time, rest[0].time, tickdiv);
                }
                assert(time <= timed_rest[0].time);
            }
            assert forall|i: int| 0 <= i < timed.len() implies state.reference_time_ns <= (
            #[trigger] timed[i]).time && timed[i].data == events[i].data by {
                if i > 0 {
                    assert(timed[i] == timed_rest[i - 1]);
                    assert(rest[i - 1] == events[i]);
                    assert(raw_time()(timed_rest[0]) <= raw_time()(timed_rest[i - 1]));
                }
            }
            assert forall|i: int, j: int| 0 <= i <= j < timed.len() implies raw_time()(timed[i])
                <= raw_time()(timed[j]) by {
                if i > 0 {
                    assert(timed[i] == timed_rest[i - 1] && timed[j] == timed_rest[j - 1]);
                    assert(raw_time()(timed_rest[i - 1]) <= raw_time()(timed_rest[j - 1]));
                } else if j > 0 {
                    assert(timed[j] == timed_rest[j - 1]);
                    assert(raw_time()(timed_rest[0]) <= raw_time()(timed_rest[j - 1]));
                }
            }
        }
    }
}

/// The events come out of the tempo map one for one, with their bytes, and
/// in ascending order of time.
pub proof fn lemma_real_timings_sorted(
    events: Seq<RawEvent>,
    tickdiv: u16,
    timing_style: TempoStyle,
)
    requires
        timing_style is MetricalTiming ==> tickdiv > 0,
        is_sorted_by(events, raw_time()),
    ensures
        spec_real_timings(events, tickdiv, timing_style) matches Ok(timed) ==> timed.len()
            == events.len() && is_sorted_by(timed, raw_time()) && forall|i: int|
            0 <= i < timed.len() ==> (#[trigger] timed[i]).data == events[i].data,
{
    match timing_style {
        TempoStyle::MetricalTiming => {
            lemma_metrical_timings_sorted(events, initial_tempo_state(), tickdiv);
        },
        TempoStyle::Timecode => {
            if let Ok(timed) = spec_timecode_timings(events, tickdiv) {
                assert forall|i: int, j: int| 0 <= i <= j < timed.len() implies raw_time()(
                    timed[i],
                ) <= raw_time()(timed[j]) by {
                    assert(raw_time()(events[i]) <= raw_time()(events[j]));
                    assert(timecode_time(events[i].time, tickdiv) <= timecode_time(
                        events[j].time,
                        tickdiv,
                    )) by (nonlinear_arith)
                        requires
                            events[i].time <= events[j].time,
                            tickdiv >= 0,
                    ;
                }
            }
        },
    }
}

/// At a constant tempo, the event at tick `n` stands at `n * tempo * 1000 /
/// tickdiv` nanoseconds, rounded down. The tempo is constant where every
/// tempo event stands at tick 0 and sets the same tempo, which is 500 000
/// where there is no tempo event. The one error left is a time that does not
/// fit in 64 bits.
pub proof fn lemma_constant_tempo(events: Seq<RawEvent>, tickdiv: u16, tempo: u32)
    requires
        tickdiv > 0,
        is_sorted_by(events, raw_time()),
        forall|i: int|
            0 <= i < events.len() && is_tempo_event((#[trigger] events[i]).data) ==> events[i].time
                == 0 && spec_tempo(events[i].data) == Some(tempo),
        tempo == 500_000 || exists|i: int|
            0 <= i < events.len() && is_tempo_event((#[trigger] events[i]).data),
    ensures
        match spec_real_timings(events, tickdiv, TempoStyle::MetricalTiming) {
            Ok(timed) => timed.len() == events.len() && forall|i: int|
                0 <= i < events.len() ==> (#[trigger] timed[i]).time == (events[i].time * tempo
                    * 1000) / (tickdiv as int) && timed[i].data == events[i].data,
            Err(e) => e == DecodeError::TimeOverflow && exists|i: int|
                0 <= i < events.len() && ((#[trigger] events[i]).time * tempo * 1000) / (
                tickdiv as int) > u64::MAX,
        },
{
    lemma_constant_tempo_from(events, initial_tempo_state(), tickdiv, tempo);
}

/// `lemma_constant_tempo`, from any state whose reference is the start of the
/// song.
proof fn lemma_constant_tempo_from(
    events: Seq<RawEvent>,
    state: TempoState,
    tickdiv: u16,
    tempo: u32,
)
    requires
        tickdiv > 0,
        is_sorted_by(events, raw_time()),
        state.reference_ticks == 0,
        state.reference_time_ns == 0,
        forall|i: int|
            0 <= i < events.len() && is_tempo_event((#[trigger] events[i]).data) ==> events[i].time
                == 0 && spec_tempo(events[i].data) == Some(tempo),
        state.microseconds_per_quarter_note == tempo || exists|i: int|
            0 <= i < events.len() && is_tempo_event((#[trigger] events[i]).data),
    ensures
        match spec_metrical_timings(events, state, tickdiv) {
            Ok(timed) => timed.len() == events.len() && forall|i: int|
                0 <= i < events.len() ==> (#[trigger] timed[i]).time == (events[i].time * tempo
                    * 1000) / (tickdiv as int) && timed[i].data == events[i].data,
            Err(e) => e == DecodeError::TimeOverflow && exists|i: int|
                0 <= i < events.len() && ((#[trigger] events[i]).time * tempo * 1000) / (
                tickdiv as int) > u64::MAX,
        },
    decreases events.len(),
{
    if events.len() > 0 {
        let event = events.first();
        let time = metrical_time(state, event.time, tickdiv);
        let rest = events.drop_first();
        if state.microseconds_per_quarter_note != tempo {
            let j = choose|j: int|
                0 <= j < events.len() && is_tempo_event((#[trigger] events[j]).data);
            assert(raw_time()(events[0]) <= raw_time()(events[j]));
            assert(event.time == 0);
        }
        assert(time == (event.time * tempo * 1000) / (tickdiv as int)) by {
            if event.time == 0 {
                assert(0 * state.microseconds_per_quarter_note * 1000 == 0);
                assert(0 * tempo * 1000 == 0);
            }
        }
        if time > u64::MAX {
            assert((events[0].time * tempo * 1000) / (tickdiv as int) > u64::MAX);
        } else {
            let next = tempo_state_after(state, event, time as u64);
            if is_tempo_event(event.data) {
                assert(events[0].time == 0 && spec_tempo(events[0].data) == Some(tempo));
                assert(time == 0) by {
                    assert(0 * tempo * 1000 == 0);
                }
            } else if state.microseconds_per_quarter_note != tempo {
                let j = choose|j: int|
                    0 <= j < events.len() && is_tempo_event((#[trigger] events[j]).data);
                assert(rest[j - 1] == events[j]);
            }
            assert forall|i: int, j: int| 0 <= i <= j < rest.len() implies raw_time()(rest[i])
                <= raw_time()(rest[j]) by {
                assert(rest[i] == events[i + 1] && rest[j] == events[j + 1]);
            }
            assert forall|i: int|
                0 <= i < rest.len() && is_tempo_event(
                    (#[trigger] rest[i]).data,
                ) implies rest[i].time == 0 && spec_tempo(rest[i].data) == Some(tempo) by {
                assert(rest[i] == events[i + 1]);
            }
            lemma_constant_tempo_from(rest, next, tickdiv, tempo);
            match spec_metrical_timings(rest, next, tickdiv) {
                Ok(timed_rest) => {
                    let timed = seq![at_time(event, time)] + timed_rest;
                    assert forall|i: int| 0 <= i < events.len() implies (#[trigger] timed[i]).time
                        == (events[i].time * tempo * 1000) / (tickdiv as int) && timed[i].data
                        == events[i].data by {
                        if i > 0 {
                            assert(timed[i] == timed_rest[i - 1]);
                            assert(rest[i - 1] == events[i]);
                        }
                    }
                },
                Err(e) => {
                    let i = choose|i: int|
                        0 <= i < rest.len() && ((#[trigger] rest[i]).time * tempo * 1000) / (
                        tickdiv as int) > u64::MAX;
                    assert(rest[i] == events[i + 1]);
                },
            }
        }
    }
}

/// In metrical style a tempo event without a payload of exactly 3 bytes makes
/// the decoding fail, with the error of that event unless a time before it
/// does not fit in 64 bits.
pub proof fn lemma_bad_tempo_is_refused(events: Seq<RawEvent>, tickdiv: u16, bad: int)
    requires
        0 <= bad < events.len(),
        is_tempo_event(events[bad].data),
        spec_tempo(events[bad].data) is None,
    ensures
        spec_real_timings(events, tickdiv, TempoStyle::MetricalTiming) matches Err(e) && (e
            == DecodeError::InvalidTempoSize || e == DecodeError::TimeOverflow),
{
    lemma_bad_tempo_is_refused_from(events, initial_tempo_state(), tickdiv, bad);
}

/// `lemma_bad_tempo_is_refused`, from any state.
proof fn lemma_bad_tempo_is_refused_from(
    events: Seq<RawEvent>,
    state: TempoState,
    tickdiv: u16,
    bad: int,
)
    requires
        0 <= bad < events.len(),
        is_tempo_event(events[bad].data),
        spec_tempo(events[bad].data) is None,
    ensures
        spec_metrical_timings(events, state, tickdiv) matches Err(e) && (e
            == DecodeError::InvalidTempoSize || e == DecodeError::TimeOverflow),
    decreases events.len(),
{
    if bad > 0 {
        let event = events.first();
        let time = metrical_time(state, event.time, tickdiv);
        let rest = events.drop_first();
        assert(rest[bad - 1] == events[bad]);
        lemma_bad_tempo_is_refused_from(
            rest,
            tempo_state_after(state, event, time as u64),
            tickdiv,
            bad - 1,
        );
    }
}

/// The tempo that the bytes of a tempo event set, if they are well formed.
pub fn tempo_of(data: &Vec<u8>) -> (res: Option<u32>)
    ensures
        res == spec_tempo(data@),
{
    let mut cursor = ByteCursor::new(data.as_slice());
    proof {
        lemma_vlq_end_bounds(data@, 2);
    }
    match cursor.seek_relative(2) {
        Ok(()) => {},
        Err(_) => {
            return None;
        },
    }
    let prefix = match get_variable_length_array(&mut cursor) {
        Ok(prefix) => prefix,
        Err(_) => {
            return None;
        },
    };
    let length = match get_variable_length_value(prefix.as_slice()) {
        Ok(length) => length,
        Err(_) => {
            return None;
        },
    };
    if length != 3 || cursor.remaining() != 3 {
        return None;
    }
    match cursor.read_exact(3) {
        Ok(payload) => Some(
            payload[0] as u32 * 0x1_0000 + payload[1] as u32 * 0x100 + payload[2] as u32,
        ),
        Err(_) => None,
    }
}

/// Gives each event its time in nanoseconds in place of its time in ticks.
/// The events come in ascending order of time, and so they leave.
///
/// In timecode style a tick lasts `tickdiv` milliseconds. In metrical style
/// a quarter note has `tickdiv` ticks, at least one, and lasts what the last
/// tempo event before says, 500 000 microseconds before the first.
pub fn set_real_timings(events: Vec<MidiEvent>, tickdiv: u16, timing_style: TempoStyle) -> (res:
    Result<Vec<MidiEvent>, DecodeError>)
    requires
        timing_style is MetricalTiming ==> tickdiv > 0,
        is_sorted_by(events.deep_view(), raw_time()),
    ensures
        match spec_real_timings(events.deep_view(), tickdiv, timing_style) {
            Ok(timed) => res matches Ok(v) && v.deep_view() == timed && is_sorted_by(
                timed,
                raw_time(),
            ),
            Err(e) => res matches Err(err) && err == e,
        },
{
    let ghost input = events.deep_view();
    proof {
        lemma_real_timings_sorted(input, tickdiv, timing_style);
    }
    let mut out: Vec<MidiEvent> = Vec::new();
    match timing_style {
        TempoStyle::Timecode => {
            for event in it: events
                invariant
                    timing_style is Timecode,
                    it.seq() == events@,
                    input == events.deep_view(),
                    out@.len() == it.index(),
                    forall|j: int|
                        0 <= j < it.index() ==> timecode_time(#[trigger] input[j].time, tickdiv)
                            <= u64::MAX,
                    forall|j: int|
                        0 <= j < it.index() ==> (#[trigger] out@[j])@ == at_time(
                            input[j],
                            timecode_time(input[j].time, tickdiv),
                        ),
            {
                let ghost index = it.index() as int;
                assert(event.time * tickdiv <= 0xFFFF_FFFF_FFFF_FFFF * 0xFFFF) by (nonlinear_arith)
                    requires
                        event.time <= 0xFFFF_FFFF_FFFF_FFFF,
                        tickdiv <= 0xFFFF,
                ;
                let time: u128 = event.time as u128 * tickdiv as u128 * 1_000_000;
                if time > u64::MAX as u128 {
                    assert(timecode_time(input[index].time, tickdiv) > u64::MAX);
                    return Err(DecodeError::TimeOverflow);
                }
                out.push(MidiEvent { time: time as u64, data: event.data });
            }
            Ok(out)
        },
        TempoStyle::MetricalTiming => {
            let mut state = TempoState {
                reference_ticks: 0,
                reference_time_ns: 0,
                microseconds_per_quarter_note: 500_000,
            };
            assert(input.skip(0) == input);
            for event in it: events
                invariant
                    timing_style is MetricalTiming,
                    tickdiv > 0,
                    it.seq() == events@,
                    input == events.deep_view(),
                    is_sorted_by(input, raw_time()),
                    forall|j: int|
                        it.index() <= j < input.len() ==> state.reference_ticks
                            <= (#[trigger] input[j]).time,
                    spec_metrical_timings(input, initial_tempo_state(), tickdiv) == prepend_timed(
                        out.deep_view(),
                        spec_metrical_timings(input.skip(it.index() as int), state, tickdiv),
                    ),
            {
                let ghost index = it.index() as int;
                let ghost rest = input.skip(index);
                let ghost before = out.deep_view();
                assert(rest.drop_first() == input.skip(index + 1));
                let delta: u64 = event.time - state.reference_ticks;
                assert(delta * state.microseconds_per_quarter_note <= 0xFFFF_FFFF_FFFF_FFFF
                    * 0xFFFF_FFFF) by (nonlinear_arith)
                    requires
                        delta <= 0xFFFF_FFFF_FFFF_FFFF,
                        state.microseconds_per_quarter_note <= 0xFFFF_FFFF,
                ;
                let scaled: u128 = delta as u128 * state.microseconds_per_quarter_note as u128
                    * 1000;
                let time: u128 = state.reference_time_ns as u128 + scaled / (tickdiv as u128);
                if time > u64::MAX as u128 {
                    return Err(DecodeError::TimeOverflow);
                }
                let time: u64 = time as u64;
                if event.data.len() >= 2 && event.data[0] == 0xFF && event.data[1] == 0x51 {
                    match tempo_of(&event.data) {
                        None => {
                            return Err(DecodeError::InvalidTempoSize);
                        },
                        Some(tempo) => {
                            state = TempoState {
                                reference_ticks: event.time,
                                reference_time_ns: time,
                                microseconds_per_quarter_note: tempo,
                            };
                        },
                    }
                }
                let ghost timed = at_time(event@, time as int);
                out.push(MidiEvent { time, data: event.data });
                assert(out.deep_view() == before + seq![timed]);
                assert forall|more: Seq<RawEvent>| before + (seq![timed] + more) == before
                    + seq![timed] + more by {}
            }
            Ok(out)
        },
    }
}

} // verus!
