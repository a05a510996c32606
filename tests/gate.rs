use sample_accurate::{Event, EventPayload, Midigate};

fn note_on(offset: usize) -> Event {
    Event { offset, payload: EventPayload::NoteOn { channel: 0, pitch: 60, velocity: 100 } }
}

fn note_off(offset: usize) -> Event {
    Event { offset, payload: EventPayload::NoteOff { channel: 0, pitch: 60, velocity: 0 } }
}

fn program(offset: usize, program: u8) -> Event {
    Event { offset, payload: EventPayload::ProgramChange { program } }
}

fn ramp() -> Vec<f32> {
    (1..=8).map(|x| x as f32).collect()
}

#[test]
fn gate_default_is_silent() {
    let mut gate = Midigate::new();
    assert_eq!(gate.program(), 0);
    assert_eq!(gate.n_active_notes(), 0);
    let mut out = vec![9.0f32; 8];
    gate.run(&vec![], &ramp(), &mut out, 0.0);
    assert_eq!(out, vec![0.0f32; 8]);
}

#[test]
fn gate_opens_at_note_on() {
    let mut gate = Midigate::new();
    let mut out = vec![9.0f32; 8];
    gate.run(&vec![note_on(3)], &ramp(), &mut out, 0.0);
    assert_eq!(out, vec![0.0, 0.0, 0.0, 4.0, 5.0, 6.0, 7.0, 8.0]);
    assert_eq!(gate.n_active_notes(), 1);
}

#[test]
fn gate_closes_at_note_off_and_keeps_state() {
    let mut gate = Midigate::new();
    let mut out = vec![0i32; 8];
    let input: Vec<i32> = (1..=8).collect();
    gate.run(&vec![note_on(2), note_off(5)], &input, &mut out, 0);
    assert_eq!(out, vec![0, 0, 3, 4, 5, 0, 0, 0]);
    assert_eq!(gate.n_active_notes(), 0);
    gate.run(&vec![note_on(0)], &input, &mut out, 0);
    assert_eq!(out, input);
    gate.run(&vec![], &input, &mut out, 0);
    assert_eq!(out, input);
}

#[test]
fn gate_program_one_inverts() {
    let mut gate = Midigate::new();
    let mut out = vec![0i32; 6];
    let input: Vec<i32> = vec![1, 2, 3, 4, 5, 6];
    gate.run(&vec![program(0, 1), note_on(4)], &input, &mut out, -1);
    assert_eq!(out, vec![1, 2, 3, 4, -1, -1]);
    assert_eq!(gate.program(), 1);
}

#[test]
fn gate_ignores_other_programs() {
    let mut gate = Midigate::new();
    let mut out = vec![0i32; 4];
    gate.run(&vec![program(1, 5)], &vec![1, 2, 3, 4], &mut out, 0);
    assert_eq!(gate.program(), 0);
    assert_eq!(out, vec![0, 0, 0, 0]);
}

#[test]
fn gate_note_off_without_note_stays_at_zero() {
    let mut gate = Midigate::new();
    let mut out = vec![0i32; 4];
    gate.run(&vec![note_off(0), note_on(2)], &vec![1, 2, 3, 4], &mut out, 0);
    assert_eq!(gate.n_active_notes(), 1);
    assert_eq!(out, vec![0, 0, 3, 4]);
}

#[test]
fn gate_activate_resets() {
    let mut gate = Midigate::new();
    let mut out = vec![0i32; 2];
    gate.run(&vec![program(0, 1), note_on(0), note_on(1)], &vec![1, 2], &mut out, 0);
    assert_eq!(gate.n_active_notes(), 2);
    gate.activate();
    assert_eq!(gate.n_active_notes(), 0);
    assert_eq!(gate.program(), 0);
}

#[test]
fn gate_write_output_clamps_range() {
    let mut gate = Midigate::new();
    let mut out = vec![7i32; 6];
    gate.run(&vec![note_on(0)], &vec![1, 2, 3, 4, 5, 6], &mut out, 0);
    let mut out2 = vec![9i32; 6];
    gate.write_output(4, 100, &vec![1, 2, 3, 4, 5], &mut out2, 0);
    assert_eq!(out2, vec![9, 9, 9, 9, 5, 9]);
    gate.write_output(10, 3, &vec![1, 2, 3, 4, 5], &mut out2, 0);
    assert_eq!(out2, vec![9, 9, 9, 9, 5, 9]);
}

#[test]
fn gate_block_is_shorter_buffer() {
    let mut gate = Midigate::new();
    let mut out = vec![9i32; 5];
    gate.run(&vec![note_on(1)], &vec![1, 2, 3], &mut out, 0);
    assert_eq!(out, vec![0, 2, 3, 9, 9]);
}
