//! Sample-accurate block processing for event-driven audio plugins: a timeline walk that
//! splits a block at event boundaries, a metronome envelope, a note gate and a note
//! transposer with a bounded output.

pub mod envelope;
pub mod gate;
pub mod timeline;
pub mod transpose;

pub use envelope::{
    Level, Metro, MetroView, Phase, ATTACK_MS, BEAT_SCALE, DECAY_MS, DEFAULT_BPM, TONE_HZ,
};
pub use gate::{GateView, Midigate};
pub use timeline::{segment_ranges, Event, EventPayload};
pub use transpose::{Fifths, FIFTH};
