use sample_accurate::{Event, EventPayload, Fifths};

fn on(offset: usize, pitch: u8) -> Event {
    Event { offset, payload: EventPayload::NoteOn { channel: 0, pitch, velocity: 100 } }
}

fn off(offset: usize, pitch: u8) -> Event {
    Event { offset, payload: EventPayload::NoteOff { channel: 3, pitch, velocity: 64 } }
}

#[test]
fn transpose_note_on() {
    let fifths = Fifths::new();
    let mut out = Vec::new();
    assert!(fifths.run(&vec![on(5, 60)], &mut out, 16));
    assert_eq!(out, vec![on(5, 60), on(5, 67)]);
}

#[test]
fn transpose_note_off() {
    let fifths = Fifths::new();
    assert_eq!(fifths.transposed(&off(2, 0)), Some(off(2, 7)));
    assert_eq!(fifths.transposed(&off(2, 120)), Some(off(2, 127)));
}

#[test]
fn transpose_out_of_range_forwards_only() {
    let fifths = Fifths::new();
    let mut out = Vec::new();
    assert!(fifths.run(&vec![on(1, 121), off(4, 127)], &mut out, 16));
    assert_eq!(out, vec![on(1, 121), off(4, 127)]);
    assert_eq!(fifths.transposed(&on(0, 200)), None);
}

#[test]
fn transpose_forwards_other_events() {
    let fifths = Fifths::new();
    let program = Event { offset: 0, payload: EventPayload::ProgramChange { program: 3 } };
    let other = Event { offset: 1, payload: EventPayload::Unrecognized };
    let mut out = Vec::new();
    assert!(fifths.run(&vec![program, other, on(2, 10)], &mut out, 16));
    assert_eq!(out, vec![program, other, on(2, 10), on(2, 17)]);
}

#[test]
fn transpose_downward_interval() {
    let down = Fifths { interval: -12 };
    assert_eq!(down.transposed(&on(0, 60)), Some(on(0, 48)));
    assert_eq!(down.transposed(&on(0, 11)), None);
}

#[test]
fn transpose_capacity_truncates() {
    let fifths = Fifths::new();
    let mut out = Vec::new();
    assert!(!fifths.run(&vec![on(0, 60), on(3, 62)], &mut out, 3));
    assert_eq!(out, vec![on(0, 60), on(0, 67), on(3, 62)]);

    let mut out = vec![on(0, 1)];
    assert!(!fifths.run(&vec![on(0, 60), on(3, 62)], &mut out, 2));
    assert_eq!(out, vec![on(0, 1), on(0, 60)]);

    let mut out = vec![on(0, 1), on(0, 2)];
    assert!(!fifths.run(&vec![on(0, 60)], &mut out, 1));
    assert_eq!(out, vec![on(0, 1), on(0, 2)]);

    let mut out = vec![on(0, 1), on(0, 2)];
    assert!(fifths.run(&vec![], &mut out, 1));
}

#[test]
fn transpose_exact_fit_is_complete() {
    let fifths = Fifths::new();
    let mut out = Vec::new();
    assert!(fifths.run(&vec![on(0, 60), on(3, 62)], &mut out, 4));
    assert_eq!(out.len(), 4);
}
