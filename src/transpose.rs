use vstd::prelude::*;

use crate::timeline::{Event, EventPayload};

verus! {

/// Half steps in a fifth.
pub const FIFTH: i8 = 7;

/// The MIDI pitch `half_steps` away from `pitch`, if both lie in `0..=127`.
pub open spec fn stepped_pitch(pitch: u8, half_steps: i8) -> Option<u8> {
    let t = pitch as int + half_steps as int;
    if pitch <= 127 && 0 <= t <= 127 {
        Some(t as u8)
    } else {
        None
    }
}

/// Relies on wmidi's `Note::step`, which gives the note `half_steps` away or an error when that
/// falls outside the MIDI range 0..=127, and on `Note::try_from(u8)`, which fails above 127.
#[verifier::external_body]
fn step_note(pitch: u8, half_steps: i8) -> (r: Option<u8>)
    ensures
        r == stepped_pitch(pitch, half_steps),
{
    match wmidi::Note::try_from(pitch) {
        Ok(note) => note.step(half_steps).ok().map(u8::from),
        Err(_) => None,
    }
}

/// The event written after `e`: for a note on or off whose shifted pitch is in range, the same
/// note at the shifted pitch; for anything else, none.
pub open spec fn second_event(e: Event, interval: i8) -> Option<Event> {
    match e.payload {
        EventPayload::NoteOn { channel, pitch, velocity } => match stepped_pitch(pitch, interval) {
            Some(p) => Some(
                Event {
                    offset: e.offset,
                    payload: EventPayload::NoteOn { channel, pitch: p, velocity },
                },
            ),
            None => None,
        },
        EventPayload::NoteOff { channel, pitch, velocity } => match stepped_pitch(
            pitch,
            interval,
        ) {
            Some(p) => Some(
                Event {
                    offset: e.offset,
                    payload: EventPayload::NoteOff { channel, pitch: p, velocity },
                },
            ),
            None => None,
        },
        _ => None,
    }
}

/// What one input event gives: itself, then its shifted copy if there is one.
pub open spec fn emissions(e: Event, interval: i8) -> Seq<Event> {
    match second_event(e, interval) {
        Some(s) => seq![e, s],
        None => seq![e],
    }
}

/// Everything that a timeline gives, in order, with no bound on the output.
pub open spec fn output_stream(events: Seq<Event>, interval: i8) -> Seq<Event>
    decreases events.len(),
{
    if events.len() == 0 {
        Seq::empty()
    } else {
        output_stream(events.drop_last(), interval) + emissions(events.last(), interval)
    }
}

/// Free slots in an output of capacity `capacity` that already holds `len` events.
pub open spec fn room(len: int, capacity: int) -> int {
    if capacity > len {
        capacity - len
    } else {
        0
    }
}

pub open spec fn min(a: int, b: int) -> int {
    if a < b {
        a
    } else {
        b
    }
}

/// What a timeline gives is a prefix of what any longer one gives.
proof fn lemma_stream_prefix(events: Seq<Event>, interval: i8, j: int)
    requires
        0 <= j <= events.len(),
    ensures
        output_stream(events.take(j), interval).len() <= output_stream(events, interval).len(),
        output_stream(events, interval).take(output_stream(events.take(j), interval).len() as int)
            == output_stream(events.take(j), interval),
    decreases events.len(),
{
    let whole = output_stream(events, interval);
    if j == events.len() {
        assert(events.take(j) =~= events);
        assert(whole.take(whole.len() as int) =~= whole);
    } else {
        let shorter = events.drop_last();
        assert(events.take(j) =~= shorter.take(j));
        lemma_stream_prefix(shorter, interval, j);
        let part = output_stream(shorter.take(j), interval);
        assert(whole.take(part.len() as int) =~= output_stream(shorter, interval).take(
            part.len() as int,
        ));
    }
}

proof fn lemma_stream_step(events: Seq<Event>, interval: i8, k: int)
    requires
        0 <= k < events.len(),
    ensures
        output_stream(events.take(k + 1), interval) == output_stream(events.take(k), interval)
            + emissions(events[k], interval),
{
    assert(events.take(k + 1).drop_last() =~= events.take(k));
}

/// The pitch of a note on or off.
pub open spec fn note_pitch(payload: EventPayload) -> Option<u8> {
    match payload {
        EventPayload::NoteOn { pitch, .. } => Some(pitch),
        EventPayload::NoteOff { pitch, .. } => Some(pitch),
        _ => None,
    }
}

/// A note whose shifted pitch would leave the MIDI range is forwarded alone.
pub proof fn lemma_out_of_range_forwarded_alone(e: Event, interval: i8)
    requires
        note_pitch(e.payload) matches Some(p) && ((p as int) + (interval as int) > 127 || (p as int)
            + (interval as int) < 0),
    ensures
        emissions(e, interval) == seq![e],
{
}

/// A note transposer: every event is forwarded, and each note on or off is followed by the
/// same note `interval` half steps away.
pub struct Fifths {
    pub interval: i8,
}

impl Fifths {
    /// A transposer up a fifth.
    pub fn new() -> (r: Fifths)
        ensures
            r.interval == FIFTH,
    {
        Fifths { interval: FIFTH }
    }

    /// The event to write after `event`, if any.
    pub fn transposed(&self, event: &Event) -> (r: Option<Event>)
        ensures
            r == second_event(*event, self.interval),
    {
        match event.payload {
            EventPayload::NoteOn { channel, pitch, velocity } => match step_note(
                pitch,
                self.interval,
            ) {
                Some(p) => Some(
                    Event {
                        offset: event.offset,
                        payload: EventPayload::NoteOn { channel, pitch: p, velocity },
                    },
                ),
                None => None,
            },
            EventPayload::NoteOff { channel, pitch, velocity } => match step_note(
                pitch,
                self.interval,
            ) {
                Some(p) => Some(
                    Event {
                        offset: event.offset,
                        payload: EventPayload::NoteOff { channel, pitch: p, velocity },
                    },
                ),
                None => None,
            },
            _ => None,
        }
    }

    /// Appends to `out` what `events` give, while `out` holds fewer than `capacity` events.
    /// Once it is full, the rest of the block is dropped: the events already in `out` stay as
    /// they were and what was appended is an exact prefix of the stream. Returns whether the
    /// whole stream fit.
    pub fn run(&self, events: &Vec<Event>, out: &mut Vec<Event>, capacity: usize) -> (complete:
        bool)
        ensures
            final(out)@ == old(out)@ + output_stream(events@, self.interval).take(
                min(
                    room(old(out).len() as int, capacity as int),
                    output_stream(events@, self.interval).len() as int,
                ),
            ),
            complete == (output_stream(events@, self.interval).len() <= room(
                old(out).len() as int,
                capacity as int,
            )),
    {
        let ghost base = out@;
        let ghost evs = events@;
        let ghost full = output_stream(evs, self.interval);
        let mut k: usize = 0;
        while k < events.len()
            invariant
                evs == events@,
                base == old(out)@,
                full == output_stream(evs, self.interval),
                k <= evs.len(),
                out@ == base + output_stream(evs.take(k as int), self.interval),
                out.len() <= capacity || (k == 0 && out@ == base),
            decreases evs.len() - k,
        {
            proof {
                lemma_stream_step(evs, self.interval, k as int);
                lemma_stream_prefix(evs, self.interval, k as int + 1);
            }
            let e = events[k];
            if out.len() >= capacity {
                proof {
                    lemma_stream_prefix(evs, self.interval, k as int);
                    let part = output_stream(evs.take(k as int), self.interval);
                    assert(out@ =~= base + full.take(part.len() as int));
                }
                return false;
            }
            out.push(e);
            match self.transposed(&e) {
                Some(s) => {
                    if out.len() >= capacity {
                        proof {
                            let part = output_stream(evs.take(k + 1), self.interval);
                            assert(full.take(part.len() - 1) =~= part.take(part.len() - 1));
                            assert(out@ =~= base + full.take(part.len() - 1));
                        }
                        return false;
                    }
                    out.push(s);
                },
                None => {},
            }
            proof {
                assert(out@ =~= base + output_stream(evs.take(k + 1), self.interval));
            }
            k = k + 1;
        }
        proof {
            assert(evs.take(k as int) =~= evs);
            assert(full.take(full.len() as int) =~= full);
        }
        true
    }
}

} // verus!
