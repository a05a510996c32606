use vstd::prelude::*;

use crate::timeline::{
    Event, EventPayload, in_effect_at, boundary, lemma_in_effect_at, lemma_boundary_bounds,
    next_boundary,
};

verus! {

/// A note gate: audio passes while notes are held (program 0), or while none are (program 1).
pub struct Midigate {
    n_active_notes: u64,
    program: u8,
}

/// The mathematical state of a [`Midigate`].
pub struct GateView {
    pub n_active_notes: nat,
    pub program: nat,
}

impl View for Midigate {
    type V = GateView;

    closed spec fn view(&self) -> GateView {
        GateView { n_active_notes: self.n_active_notes as nat, program: self.program as nat }
    }
}

impl GateView {
    pub open spec fn wf(self) -> bool {
        &&& self.n_active_notes <= u64::MAX
        &&& self.program <= 1
    }

    /// Whether audio passes.
    pub open spec fn is_open(self) -> bool {
        if self.program == 0 {
            self.n_active_notes > 0
        } else {
            self.n_active_notes == 0
        }
    }

    /// A note on counts one more held note, a note off one fewer (never below zero), and a
    /// program change to 0 or 1 selects that program; anything else changes nothing.
    pub open spec fn apply(self, payload: EventPayload) -> GateView {
        match payload {
            EventPayload::NoteOn { .. } => if self.n_active_notes < u64::MAX {
                GateView { n_active_notes: self.n_active_notes + 1, ..self }
            } else {
                self
            },
            EventPayload::NoteOff { .. } => if self.n_active_notes > 0 {
                GateView { n_active_notes: (self.n_active_notes - 1) as nat, ..self }
            } else {
                self
            },
            EventPayload::ProgramChange { program } => if program <= 1 {
                GateView { program: program as nat, ..self }
            } else {
                self
            },
            _ => self,
        }
    }
}

/// The state after the first `k` events.
pub open spec fn gate_after(g: GateView, events: Seq<Event>, k: int) -> GateView
    decreases k,
{
    if k <= 0 {
        g
    } else {
        gate_after(g, events, k - 1).apply(events[k - 1].payload)
    }
}

/// The frames that a block covers: as many as both buffers hold.
pub open spec fn block_len(input_len: int, output_len: int) -> int {
    if input_len < output_len {
        input_len
    } else {
        output_len
    }
}

/// What is written at one frame: the input sample when open, else silence.
pub open spec fn gated<T>(g: GateView, sample: T, silence: T) -> T {
    if g.is_open() {
        sample
    } else {
        silence
    }
}

proof fn lemma_gate_after_wf(g: GateView, events: Seq<Event>, k: int)
    requires
        g.wf(),
    ensures
        gate_after(g, events, k).wf(),
    decreases k,
{
    if k > 0 {
        lemma_gate_after_wf(g, events, k - 1);
    }
}

impl Midigate {
    /// A gate with no note held, in program 0.
    pub fn new() -> (r: Midigate)
        ensures
            r@ == (GateView { n_active_notes: 0, program: 0 }),
    {
        Midigate { n_active_notes: 0, program: 0 }
    }

    /// Back to no note held and program 0.
    pub fn activate(&mut self)
        ensures
            final(self)@ == (GateView { n_active_notes: 0, program: 0 }),
    {
        self.n_active_notes = 0;
        self.program = 0;
    }

    pub fn n_active_notes(&self) -> (r: u64)
        ensures
            r == self@.n_active_notes,
    {
        self.n_active_notes
    }

    pub fn program(&self) -> (r: u8)
        ensures
            r == self@.program,
    {
        self.program
    }

    /// Writes frames `begin..end` of `output`: the input while open, else
    /// `silence`. The range is cut to what both buffers hold.
    pub fn write_output<T: Copy>(
        &self,
        begin: usize,
        end: usize,
        input: &Vec<T>,
        output: &mut Vec<T>,
        silence: T,
    )
        ensures
            final(output).len() == old(output).len(),
            forall|i: int|
                begin <= i < end && i < block_len(input.len() as int, old(output).len() as int)
                    ==> #[trigger] final(output)[i] == gated(self@, input[i], silence),
            forall|i: int|
                0 <= i < old(output).len() && !(begin <= i < end && i < block_len(
                    input.len() as int,
                    old(output).len() as int,
                )) ==> #[trigger] final(output)[i] == old(output)[i],
    {
        let mut e = end;
        if input.len() < e {
            e = input.len();
        }
        if output.len() < e {
            e = output.len();
        }
        let open = if self.program == 0 {
            self.n_active_notes > 0
        } else {
            self.n_active_notes == 0
        };
        let mut i: usize = begin;
        while i < e
            invariant
                begin <= i,
                e <= input.len(),
                e <= output.len(),
                e == (if end < block_len(input.len() as int, old(output).len() as int) {
                    end as int
                } else {
                    block_len(input.len() as int, old(output).len() as int)
                }),
                output.len() == old(output).len(),
                open == self@.is_open(),
                forall|j: int|
                    begin <= j < i && j < e ==> #[trigger] output[j] == gated(
                        self@,
                        input[j],
                        silence,
                    ),
                forall|j: int|
                    0 <= j < output.len() && !(begin <= j < i && j < e) ==> #[trigger] output[j]
                        == old(output)[j],
            decreases e - i,
        {
            if open {
                output.set(i, input[i]);
            } else {
                output.set(i, silence);
            }
            i = i + 1;
        }
    }

    fn apply(&mut self, payload: &EventPayload)
        requires
            old(self)@.wf(),
        ensures
            final(self)@ == old(self)@.apply(*payload),
    {
        match payload {
            EventPayload::NoteOn { .. } => {
                self.n_active_notes = self.n_active_notes.saturating_add(1);
            },
            EventPayload::NoteOff { .. } => {
                self.n_active_notes = self.n_active_notes.saturating_sub(1);
            },
            EventPayload::ProgramChange { program } => {
                if *program <= 1 {
                    self.program = *program;
                }
            },
            _ => {},
        }
    }

    /// Processes one block of as many frames as both buffers hold: each segment between
    /// events is gated with the state left by the events before it. Frame `i` is gated by the
    /// state after the events in effect at it; frames past the block are left alone.
    pub fn run<T: Copy>(&mut self, events: &Vec<Event>, input: &Vec<T>, output: &mut Vec<T>, silence: T)
        requires
            old(self)@.wf(),
        ensures
            final(self)@.wf(),
            final(self)@ == gate_after(old(self)@, events@, events.len() as int),
            final(output).len() == old(output).len(),
            forall|i: int|
                0 <= i < block_len(input.len() as int, old(output).len() as int)
                    ==> #[trigger] final(output)[i] == gated(
                    gate_after(
                        old(self)@,
                        events@,
                        in_effect_at(
                            events@,
                            block_len(input.len() as int, old(output).len() as int),
                            i,
                        ),
                    ),
                    input[i],
                    silence,
                ),
            forall|i: int|
                block_len(input.len() as int, old(output).len() as int) <= i < old(output).len()
                    ==> #[trigger] final(output)[i] == old(output)[i],
    {
        let n = if input.len() < output.len() {
            input.len()
        } else {
            output.len()
        };
        let ghost g0 = self@;
        let ghost evs = events@;
        let mut last: usize = 0;
        let mut k: usize = 0;
        while k < events.len()
            invariant
                evs == events@,
                g0 == old(self)@,
                g0.wf(),
                n == block_len(input.len() as int, old(output).len() as int),
                output.len() == old(output).len(),
                k <= evs.len(),
                last <= n,
                last == boundary(evs, n as int, k - 1),
                self@ == gate_after(g0, evs, k as int),
                self@.wf(),
                forall|i: int|
                    0 <= i < last ==> #[trigger] output[i] == gated(
                        gate_after(g0, evs, in_effect_at(evs, n as int, i)),
                        input[i],
                        silence,
                    ),
                forall|i: int| n <= i < output.len() ==> #[trigger] output[i] == old(output)[i],
            decreases evs.len() - k,
        {
            let b = next_boundary(last, events[k].offset, n);
            proof {
                lemma_boundary_bounds(evs, n as int, k as int);
                assert forall|i: int| last <= i < b implies in_effect_at(evs, n as int, i) == k by {
                    lemma_in_effect_at(evs, n as int, i, k as int);
                }
            }
            self.write_output(last, b, input, output, silence);
            self.apply(&events[k].payload);
            proof {
                lemma_gate_after_wf(g0, evs, k + 1);
            }
            last = b;
            k = k + 1;
        }
        proof {
            assert forall|i: int| last <= i < n implies in_effect_at(evs, n as int, i) == k by {
                lemma_in_effect_at(evs, n as int, i, k as int);
            }
        }
        self.write_output(last, n, input, output, silence);
    }
}

} // verus!
