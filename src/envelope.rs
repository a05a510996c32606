use vstd::prelude::*;

use crate::timeline::{
    Event, EventPayload, in_effect_at, boundary, lemma_in_effect_at, lemma_in_effect_ends,
    lemma_boundary_bounds, lemma_count_bounds, next_boundary,
};

verus! {

/// Frequency of the click tone, in Hz.
pub const TONE_HZ: u32 = 880;

/// Length of the attack, in thousandths of a second.
pub const ATTACK_MS: u64 = 5;

/// Length of the decay, in thousandths of a second.
pub const DECAY_MS: u64 = 75;

/// Tempo at activation, in thousandths of a beat per minute.
pub const DEFAULT_BPM: u32 = 120_000;

/// Beat positions count millionths of a beat.
pub const BEAT_SCALE: u64 = 1_000_000;

/// Upper bound on any frame count within a beat.
pub const ELAPSED_LIMIT: u64 = 0x4_0000_0000_0000;

/// Where the envelope of a click stands.
#[derive(Clone, Copy, Debug, PartialEq, Eq, Structural)]
pub enum Phase {
    Attack,
    Decay,
    Off,
}

/// The amplitude of one output frame: silence, or the waveform sample at `cursor`
/// scaled by `num / den`.
#[derive(Clone, Copy, Debug, PartialEq, Eq, Structural)]
pub enum Level {
    Silent,
    Scaled { cursor: usize, num: u64, den: u64 },
}

/// A metronome: an attack/decay click on every beat of the host's transport.
pub struct Metro {
    rate: u32,
    bpm: u32,
    speed: i32,
    elapsed_len: u64,
    wave_offset: usize,
    state: Phase,
    wave_len: usize,
    attack_len: u64,
    decay_len: u64,
}

/// The mathematical state of a [`Metro`].
pub struct MetroView {
    pub rate: nat,
    pub bpm: nat,
    pub speed: int,
    pub elapsed: nat,
    pub cursor: nat,
    pub phase: Phase,
    pub wave_len: nat,
    pub attack_len: nat,
    pub decay_len: nat,
}

impl View for Metro {
    type V = MetroView;

    closed spec fn view(&self) -> MetroView {
        MetroView {
            rate: self.rate as nat,
            bpm: self.bpm as nat,
            speed: self.speed as int,
            elapsed: self.elapsed_len as nat,
            cursor: self.wave_offset as nat,
            phase: self.state,
            wave_len: self.wave_len as nat,
            attack_len: self.attack_len as nat,
            decay_len: self.decay_len as nat,
        }
    }
}

/// Frames in one beat: `60 * rate / bpm` rounded to the nearest frame, with `bpm` in
/// thousandths.
pub open spec fn frames_per_beat(rate: nat, bpm: nat) -> nat
    recommends
        bpm > 0,
{
    ((120_000 * rate + bpm) / (2 * bpm)) as nat
}

/// The phase that a click is in `elapsed` frames after it began.
pub open spec fn phase_of(elapsed: nat, attack_len: nat, decay_len: nat) -> Phase {
    if elapsed < attack_len {
        Phase::Attack
    } else if elapsed < attack_len + decay_len {
        Phase::Decay
    } else {
        Phase::Off
    }
}

pub open spec fn phase_rank(p: Phase) -> int {
    match p {
        Phase::Attack => 0,
        Phase::Decay => 1,
        Phase::Off => 2,
    }
}

/// Frames into the beat that a position within the bar stands for: its fractional part,
/// in frames, rounded down.
pub open spec fn beat_elapsed(beat_position: nat, frames: nat) -> nat {
    ((beat_position % (BEAT_SCALE as nat)) * frames / (BEAT_SCALE as nat)) as nat
}

impl MetroView {
    pub open spec fn frames_per_beat(self) -> nat {
        frames_per_beat(self.rate, self.bpm)
    }

    /// The phase that the next frame is rendered in.
    pub open spec fn current_phase(self) -> Phase {
        phase_of(self.elapsed, self.attack_len, self.decay_len)
    }

    pub open spec fn wf(self) -> bool {
        &&& TONE_HZ <= self.rate <= u32::MAX
        &&& 0 < self.bpm <= u32::MAX
        &&& i32::MIN <= self.speed <= i32::MAX
        &&& self.wave_len == self.rate / (TONE_HZ as nat)
        &&& 1 <= self.wave_len
        &&& 1 <= self.attack_len <= u32::MAX
        &&& 1 <= self.decay_len <= u32::MAX
        &&& self.attack_len == self.rate * (ATTACK_MS as nat) / 1000
        &&& self.decay_len == self.rate * (DECAY_MS as nat) / 1000
        &&& self.cursor < self.wave_len
        &&& self.elapsed < ELAPSED_LIMIT
        // The stored phase never runs ahead of the elapsed count, except at a beat start.
        &&& (self.elapsed == 0 || phase_rank(self.phase) <= phase_rank(self.current_phase()))
    }

    /// What the next frame is: silence while the transport is stopped, else the waveform
    /// rising over the attack, falling over the decay, and silence after.
    pub open spec fn level(self) -> Level {
        if self.speed == 0 {
            Level::Silent
        } else {
            match self.current_phase() {
                Phase::Attack => Level::Scaled {
                    cursor: self.cursor as usize,
                    num: self.elapsed as u64,
                    den: self.attack_len as u64,
                },
                Phase::Decay => Level::Scaled {
                    cursor: self.cursor as usize,
                    num: (self.attack_len + self.decay_len - self.elapsed) as u64,
                    den: self.decay_len as u64,
                },
                Phase::Off => Level::Silent,
            }
        }
    }

    /// The state after one frame. Stopped, nothing moves; playing, the waveform cursor
    /// runs on and the elapsed count grows, and a new click begins once it reaches a beat.
    pub open spec fn advance(self) -> MetroView {
        if self.speed == 0 {
            self
        } else if self.elapsed + 1 >= self.frames_per_beat() {
            MetroView {
                elapsed: 0,
                phase: Phase::Attack,
                cursor: (self.cursor + 1) % self.wave_len,
                ..self
            }
        } else {
            MetroView {
                elapsed: self.elapsed + 1,
                phase: self.current_phase(),
                cursor: (self.cursor + 1) % self.wave_len,
                ..self
            }
        }
    }

    pub open spec fn advance_by(self, frames: nat) -> MetroView
        decreases frames,
    {
        if frames == 0 {
            self
        } else {
            self.advance_by((frames - 1) as nat).advance()
        }
    }

    /// A transport message: a new tempo (a zero tempo is ignored), a new speed, and a beat
    /// position, which puts the click where that position falls in the beat.
    pub open spec fn update_position(
        self,
        bpm: Option<u32>,
        speed: Option<i32>,
        beat_position: Option<u64>,
    ) -> MetroView {
        let m1 = match bpm {
            Some(b) => if b > 0 {
                MetroView { bpm: b as nat, ..self }
            } else {
                self
            },
            None => self,
        };
        let m2 = match speed {
            Some(s) => MetroView { speed: s as int, ..m1 },
            None => m1,
        };
        match beat_position {
            Some(p) => {
                let e = beat_elapsed(p as nat, m2.frames_per_beat());
                MetroView { elapsed: e, phase: phase_of(e, m2.attack_len, m2.decay_len), ..m2 }
            },
            None => m2,
        }
    }

    pub open spec fn apply(self, payload: EventPayload) -> MetroView {
        match payload {
            EventPayload::TransportInfo { bpm, speed, beat_position } => self.update_position(
                bpm,
                speed,
                beat_position,
            ),
            _ => self,
        }
    }
}

/// The state after events `from..to` of the timeline.
pub open spec fn apply_range(m: MetroView, events: Seq<Event>, from: int, to: int) -> MetroView
    decreases to - from,
{
    if to <= from {
        m
    } else {
        apply_range(m, events, from, to - 1).apply(events[to - 1].payload)
    }
}

/// The state in which frame `i` of an `n`-frame block is rendered, starting from `m`: the
/// previous frame's state advanced by one frame, then the events that take effect at `i`.
/// At `i == n` it is the state that the block leaves behind.
pub open spec fn state_at(m: MetroView, events: Seq<Event>, n: int, i: int) -> MetroView
    decreases i,
{
    let start = if i <= 0 {
        m
    } else {
        state_at(m, events, n, i - 1).advance()
    };
    apply_range(start, events, in_effect_at(events, n, i - 1), in_effect_at(events, n, i))
}


/// The state in which frame `i` starts, before the events that take effect at it.
pub open spec fn start_of(m: MetroView, events: Seq<Event>, n: int, i: int) -> MetroView {
    if i <= 0 {
        m
    } else {
        state_at(m, events, n, i - 1).advance()
    }
}

/// End of the range that [`Metro::play`] writes: `end`, cut to the buffer.
pub open spec fn clamped_end(end: int, len: int) -> int {
    if end < len {
        end
    } else {
        len
    }
}

/// Start of the range that [`Metro::play`] writes: `begin`, cut to the clamped end.
pub open spec fn clamped_begin(begin: int, end: int, len: int) -> int {
    if begin < clamped_end(end, len) {
        begin
    } else {
        clamped_end(end, len)
    }
}

proof fn lemma_frames_per_beat_bound(rate: nat, bpm: nat)
    requires
        rate <= u32::MAX,
        0 < bpm <= u32::MAX,
    ensures
        frames_per_beat(rate, bpm) <= 120_000 * rate + bpm,
        frames_per_beat(rate, bpm) < ELAPSED_LIMIT,
{
    let x = 120_000 * rate + bpm;
    let y = 2 * bpm;
    assert(x / y <= x) by (nonlinear_arith)
        requires
            x >= 0,
            y >= 1,
    ;
}

proof fn lemma_beat_elapsed_bound(p: nat, frames: nat)
    ensures
        beat_elapsed(p, frames) <= frames,
        (p % (BEAT_SCALE as nat)) * frames < (BEAT_SCALE as nat) * frames + 1,
{
    let f = p % (BEAT_SCALE as nat);
    let s = BEAT_SCALE as nat;
    assert(f < s);
    assert(f * frames <= s * frames) by (nonlinear_arith)
        requires
            f < s,
            frames >= 0,
    ;
    assert((f * frames) / s <= frames) by (nonlinear_arith)
        requires
            f * frames <= s * frames,
            s > 0,
    ;
}

/// The phase stored after a frame is never ahead of the one derived from the count.
proof fn lemma_phase_monotone(e1: nat, e2: nat, a: nat, d: nat)
    requires
        e1 <= e2,
    ensures
        phase_rank(phase_of(e1, a, d)) <= phase_rank(phase_of(e2, a, d)),
{
}

pub proof fn lemma_advance_wf(m: MetroView)
    requires
        m.wf(),
    ensures
        m.advance().wf(),
        m.advance().rate == m.rate && m.advance().speed == m.speed,
{
    lemma_frames_per_beat_bound(m.rate, m.bpm);
    if m.speed != 0 && m.elapsed + 1 < m.frames_per_beat() {
        lemma_phase_monotone(m.elapsed, m.elapsed + 1, m.attack_len, m.decay_len);
    }
}

pub proof fn lemma_apply_wf(m: MetroView, payload: EventPayload)
    requires
        m.wf(),
    ensures
        m.apply(payload).wf(),
{
    match payload {
        EventPayload::TransportInfo { bpm, speed, beat_position } => {
            let m1 = match bpm {
                Some(b) => if b > 0 {
                    MetroView { bpm: b as nat, ..m }
                } else {
                    m
                },
                None => m,
            };
            let m2 = match speed {
                Some(s) => MetroView { speed: s as int, ..m1 },
                None => m1,
            };
            if let Some(p) = beat_position {
                lemma_frames_per_beat_bound(m2.rate, m2.bpm);
                lemma_beat_elapsed_bound(p as nat, m2.frames_per_beat());
            }
        },
        _ => {},
    }
}

proof fn lemma_apply_range_wf(m: MetroView, events: Seq<Event>, from: int, to: int)
    requires
        m.wf(),
    ensures
        apply_range(m, events, from, to).wf(),
    decreases to - from,
{
    if to > from {
        lemma_apply_range_wf(m, events, from, to - 1);
        lemma_apply_wf(apply_range(m, events, from, to - 1), events[to - 1].payload);
    }
}

proof fn lemma_advance_by_stopped(m: MetroView, frames: nat)
    requires
        m.speed == 0,
    ensures
        m.advance_by(frames) == m,
    decreases frames,
{
    if frames > 0 {
        lemma_advance_by_stopped(m, (frames - 1) as nat);
    }
}

/// Inside a segment no event takes effect, so each frame's state is the previous one
/// advanced by a frame.
proof fn lemma_segment_states(
    m: MetroView,
    events: Seq<Event>,
    n: int,
    last: int,
    b: int,
    k: int,
    t: nat,
)
    requires
        0 <= last < b <= n,
        0 <= k <= events.len(),
        k == 0 || boundary(events, n, k - 1) <= last,
        k == events.len() || b <= boundary(events, n, k),
        t <= b - last,
    ensures
        t < b - last ==> state_at(m, events, n, last + t) == state_at(m, events, n, last).advance_by(t),
        t == b - last ==> start_of(m, events, n, b) == state_at(m, events, n, last).advance_by(t),
    decreases t,
{
    if t > 0 {
        lemma_segment_states(m, events, n, last, b, k, (t - 1) as nat);
        let j = last + t;
        lemma_in_effect_at(events, n, j - 1, k);
        if t < b - last {
            lemma_in_effect_at(events, n, j, k);
        }
    }
}

/// Whether a payload sets the transport rolling.
pub open spec fn starts_transport(payload: EventPayload) -> bool {
    match payload {
        EventPayload::TransportInfo { speed: Some(s), .. } => s != 0,
        _ => false,
    }
}

proof fn lemma_apply_range_stopped(m: MetroView, events: Seq<Event>, from: int, to: int)
    requires
        m.speed == 0,
        forall|k: int| 0 <= k < events.len() ==> !starts_transport(#[trigger] events[k].payload),
        0 <= from,
        to <= events.len(),
    ensures
        apply_range(m, events, from, to).speed == 0,
    decreases to - from,
{
    if to > from {
        lemma_apply_range_stopped(m, events, from, to - 1);
        assert(!starts_transport(events[to - 1].payload));
    }
}

/// Silence while stopped: if the transport is stopped when a block starts and no event of the
/// block sets it rolling, every frame of the block is silent, whatever the waveform position
/// or the phase of the click, and the metronome stays stopped.
pub proof fn lemma_stopped_is_silent(m: MetroView, events: Seq<Event>, n: int)
    requires
        m.speed == 0,
        0 <= n,
        forall|k: int| 0 <= k < events.len() ==> !starts_transport(#[trigger] events[k].payload),
    ensures
        forall|i: int| 0 <= i < n ==> #[trigger] state_at(m, events, n, i).level() == Level::Silent,
        state_at(m, events, n, n).speed == 0,
{
    assert forall|i: int| 0 <= i <= n implies #[trigger] state_at(m, events, n, i).speed == 0 by {
        lemma_state_at_stopped(m, events, n, i);
    }
    assert(state_at(m, events, n, n).speed == 0);
}

proof fn lemma_state_at_stopped(m: MetroView, events: Seq<Event>, n: int, i: int)
    requires
        m.speed == 0,
        0 <= n,
        0 <= i,
        forall|k: int| 0 <= k < events.len() ==> !starts_transport(#[trigger] events[k].payload),
    ensures
        state_at(m, events, n, i).speed == 0,
    decreases i,
{
    if i > 0 {
        lemma_state_at_stopped(m, events, n, i - 1);
    }
    lemma_count_bounds(events, n, i - 1);
    lemma_count_bounds(events, n, i);
    let start = if i <= 0 {
        m
    } else {
        state_at(m, events, n, i - 1).advance()
    };
    lemma_apply_range_stopped(start, events, in_effect_at(events, n, i - 1), in_effect_at(events, n, i));
}

/// One click per beat: from a beat start, while the transport plays and no event comes, frame
/// `t` of the beat is rendered `t` frames into the click, so in `phase_of(t, ..)`: attack, then
/// decay, then silence, with the waveform cursor running on; after a whole beat the next click
/// begins. Tempo, speed and the envelope lengths stay as they were.
pub proof fn lemma_beat_cycle(m: MetroView, t: nat)
    requires
        m.wf(),
        m.speed != 0,
        m.elapsed == 0,
        1 <= m.frames_per_beat(),
        t <= m.frames_per_beat(),
    ensures
        t < m.frames_per_beat() ==> m.advance_by(t).elapsed == t,
        t < m.frames_per_beat() ==> m.advance_by(t).current_phase() == phase_of(
            t,
            m.attack_len,
            m.decay_len,
        ),
        t == m.frames_per_beat() ==> m.advance_by(t).elapsed == 0 && m.advance_by(t).phase
            == Phase::Attack,
        m.advance_by(t).cursor == (m.cursor + t) % m.wave_len,
        m.advance_by(t).wf(),
        m.advance_by(t).speed == m.speed && m.advance_by(t).bpm == m.bpm && m.advance_by(t).rate
            == m.rate,
    decreases t,
{
    if t > 0 {
        lemma_beat_cycle(m, (t - 1) as nat);
        let prev = m.advance_by((t - 1) as nat);
        lemma_advance_wf(prev);
        let w = m.wave_len as int;
        let x = m.cursor + t - 1;
        assert((x % w + 1) % w == (x + 1) % w) by {
            vstd::arithmetic::div_mod::lemma_add_mod_noop(x, 1, w);
            vstd::arithmetic::div_mod::lemma_mod_twice(x, w);
            vstd::arithmetic::div_mod::lemma_mod_twice(1, w);
            vstd::arithmetic::div_mod::lemma_add_mod_noop(x % w, 1, w);
        }
    } else {
        vstd::arithmetic::div_mod::lemma_small_mod(m.cursor, m.wave_len);
    }
}

impl Metro {
    /// A metronome for a host running at `rate` frames per second, stopped, at the default
    /// tempo, with no click sounding. Refused (`None`) for a rate too low to hold one cycle
    /// of the tone, which includes a rate of zero.
    pub fn new(rate: u32) -> (r: Option<Metro>)
        ensures
            r is None <==> rate < TONE_HZ,
            r matches Some(m) ==> m@.wf() && m@ == (MetroView {
                rate: rate as nat,
                bpm: DEFAULT_BPM as nat,
                speed: 0,
                elapsed: 0,
                cursor: 0,
                phase: Phase::Off,
                wave_len: rate as nat / (TONE_HZ as nat),
                attack_len: rate as nat * (ATTACK_MS as nat) / 1000,
                decay_len: rate as nat * (DECAY_MS as nat) / 1000,
            }),
    {
        if rate < TONE_HZ {
            return None;
        }
        let r64 = rate as u64;
        let attack_len = r64 * ATTACK_MS / 1000;
        let decay_len = r64 * DECAY_MS / 1000;
        assert(1 <= attack_len <= u32::MAX && 1 <= decay_len <= u32::MAX) by (nonlinear_arith)
            requires
                880 <= r64 <= u32::MAX,
                attack_len == r64 * 5 / 1000,
                decay_len == r64 * 75 / 1000,
        ;
        Some(
            Metro {
                rate,
                bpm: DEFAULT_BPM,
                speed: 0,
                elapsed_len: 0,
                wave_offset: 0,
                state: Phase::Off,
                wave_len: (rate / TONE_HZ) as usize,
                attack_len,
                decay_len,
            },
        )
    }

    /// Frames since the current click began.
    pub fn elapsed_len(&self) -> (r: u64)
        ensures
            r == self@.elapsed,
    {
        self.elapsed_len
    }

    /// The phase of the click after the last rendered frame.
    pub fn phase(&self) -> (r: Phase)
        ensures
            r == self@.phase,
    {
        self.state
    }

    /// Position in the waveform of the next frame.
    pub fn wave_offset(&self) -> (r: usize)
        ensures
            r == self@.cursor,
    {
        self.wave_offset
    }

    /// Frames in one cycle of the tone.
    pub fn wave_len(&self) -> (r: usize)
        ensures
            r == self@.wave_len,
    {
        self.wave_len
    }

    pub fn attack_len(&self) -> (r: u64)
        ensures
            r == self@.attack_len,
    {
        self.attack_len
    }

    pub fn decay_len(&self) -> (r: u64)
        ensures
            r == self@.decay_len,
    {
        self.decay_len
    }

    /// Tempo in thousandths of a beat per minute.
    pub fn bpm(&self) -> (r: u32)
        ensures
            r == self@.bpm,
    {
        self.bpm
    }

    /// Transport speed in thousandths.
    pub fn speed(&self) -> (r: i32)
        ensures
            r == self@.speed,
    {
        self.speed
    }

    /// Frames in one beat at the current tempo.
    pub fn frames_per_beat(&self) -> (r: u64)
        requires
            self@.wf(),
        ensures
            r == self@.frames_per_beat(),
    {
        let bpm = self.bpm as u64;
        (120_000 * (self.rate as u64) + bpm) / (2 * bpm)
    }

    /// Renders one frame while the transport plays.
    fn tick(&mut self) -> (r: Level)
        requires
            old(self)@.wf(),
            old(self)@.speed != 0,
        ensures
            r == old(self)@.level(),
            final(self)@ == old(self)@.advance(),
            final(self)@.wf(),
    {
        proof {
            lemma_advance_wf(self@);
            lemma_frames_per_beat_bound(self@.rate, self@.bpm);
        }
        let e = self.elapsed_len;
        let a = self.attack_len;
        let d = self.decay_len;
        let phase = if e == 0 {
            Phase::Attack
        } else {
            match self.state {
                Phase::Attack => if e >= a + d {
                    Phase::Off
                } else if e >= a {
                    Phase::Decay
                } else {
                    Phase::Attack
                },
                Phase::Decay => if e >= a + d {
                    Phase::Off
                } else {
                    Phase::Decay
                },
                Phase::Off => Phase::Off,
            }
        };
        assert(phase == self@.current_phase());
        let r = match phase {
            Phase::Attack => Level::Scaled { cursor: self.wave_offset, num: e, den: a },
            Phase::Decay => Level::Scaled { cursor: self.wave_offset, num: a + d - e, den: d },
            Phase::Off => Level::Silent,
        };
        self.state = phase;
        self.wave_offset = (self.wave_offset + 1) % self.wave_len;
        let frames = self.frames_per_beat();
        if e + 1 >= frames {
            self.elapsed_len = 0;
            self.state = Phase::Attack;
        } else {
            self.elapsed_len = e + 1;
        }
        r
    }

    /// Renders the frames `begin..end` of `out` (cut to its length), advancing the click by a
    /// frame for each. While the transport is stopped it writes silence and the click stays
    /// where it is.
    pub fn play(&mut self, begin: usize, end: usize, out: &mut Vec<Level>)
        requires
            old(self)@.wf(),
        ensures
            final(self)@.wf(),
            final(out).len() == old(out).len(),
            final(self)@ == old(self)@.advance_by(
                (clamped_end(end as int, old(out).len() as int) - clamped_begin(
                    begin as int,
                    end as int,
                    old(out).len() as int,
                )) as nat,
            ),
            forall|i: int|
                clamped_begin(begin as int, end as int, old(out).len() as int) <= i
                    < clamped_end(end as int, old(out).len() as int) ==> final(out)[i]
                    == old(self)@.advance_by(
                    (i - clamped_begin(begin as int, end as int, old(out).len() as int)) as nat,
                ).level(),
            forall|i: int|
                0 <= i < old(out).len() && !(clamped_begin(
                    begin as int,
                    end as int,
                    old(out).len() as int,
                ) <= i < clamped_end(end as int, old(out).len() as int)) ==> final(out)[i]
                    == old(out)[i],
            old(self)@.speed == 0 ==> final(self)@ == old(self)@,
            old(self)@.speed == 0 ==> forall|i: int|
                clamped_begin(begin as int, end as int, old(out).len() as int) <= i
                    < clamped_end(end as int, old(out).len() as int) ==> final(out)[i]
                    == Level::Silent,
    {
        let e = if end < out.len() {
            end
        } else {
            out.len()
        };
        let b = if begin < e {
            begin
        } else {
            e
        };
        let ghost m0 = self@;
        let mut i: usize = b;
        while i < e
            invariant
                b <= i <= e <= out.len(),
                out.len() == old(out).len(),
                m0 == old(self)@,
                m0.wf(),
                self@.wf(),
                self@ == m0.advance_by((i - b) as nat),
                self@.speed == m0.speed,
                forall|j: int| b <= j < i ==> out[j] == m0.advance_by((j - b) as nat).level(),
                forall|j: int| 0 <= j < out.len() && !(b <= j < i) ==> out[j] == old(out)[j],
            decreases e - i,
        {
            proof {
                lemma_advance_wf(self@);
            }
            let level = if self.speed == 0 {
                Level::Silent
            } else {
                self.tick()
            };
            out.set(i, level);
            i = i + 1;
        }
        proof {
            if m0.speed == 0 {
                lemma_advance_by_stopped(m0, (e - b) as nat);
                assert forall|j: int| b <= j < e implies out[j] == Level::Silent by {
                    lemma_advance_by_stopped(m0, (j - b) as nat);
                }
            }
        }
    }

    /// Takes a transport message: a new tempo in thousandths of a beat per minute (zero is
    /// ignored), a new speed, and a beat position in millionths of a beat, which moves the
    /// click to where that position falls in the beat (a hard jump, which may be heard).
    pub fn update_position(
        &mut self,
        bpm: Option<u32>,
        speed: Option<i32>,
        beat_position: Option<u64>,
    )
        requires
            old(self)@.wf(),
        ensures
            final(self)@ == old(self)@.update_position(bpm, speed, beat_position),
            final(self)@.wf(),
    {
        proof {
            lemma_apply_wf(
                self@,
                EventPayload::TransportInfo { bpm, speed, beat_position },
            );
        }
        if let Some(b) = bpm {
            if b > 0 {
                self.bpm = b;
            }
        }
        if let Some(s) = speed {
            self.speed = s;
        }
        if let Some(p) = beat_position {
            let frames = self.frames_per_beat();
            proof {
                lemma_frames_per_beat_bound(self@.rate, self@.bpm);
                lemma_beat_elapsed_bound(p as nat, frames as nat);
            }
            let frac = (p % BEAT_SCALE) as u128;
            let e = (frac * (frames as u128) / (BEAT_SCALE as u128)) as u64;
            self.elapsed_len = e;
            self.state = if e < self.attack_len {
                Phase::Attack
            } else if e < self.attack_len + self.decay_len {
                Phase::Decay
            } else {
                Phase::Off
            };
        }
    }

    /// Processes one block: `out.len()` frames, split at the events, each segment rendered
    /// with [`Metro::play`] before the event that ends it takes effect. Frame `i` is rendered
    /// in `state_at(.., i)`, and the block leaves the metronome in `state_at(.., out.len())`.
    pub fn run(&mut self, events: &Vec<Event>, out: &mut Vec<Level>)
        requires
            old(self)@.wf(),
        ensures
            final(self)@.wf(),
            final(out).len() == old(out).len(),
            forall|i: int|
                0 <= i < old(out).len() ==> #[trigger] final(out)[i] == state_at(
                    old(self)@,
                    events@,
                    old(out).len() as int,
                    i,
                ).level(),
            final(self)@ == state_at(old(self)@, events@, old(out).len() as int, old(out).len() as int),
    {
        let n = out.len();
        let ghost m0 = self@;
        let ghost evs = events@;
        let mut last: usize = 0;
        let mut k: usize = 0;
        proof {
            lemma_in_effect_ends(evs, n as int);
        }
        while k < events.len()
            invariant
                evs == events@,
                m0 == old(self)@,
                n == out.len(),
                n == old(out).len(),
                k <= evs.len(),
                last <= n,
                last == boundary(evs, n as int, k - 1),
                in_effect_at(evs, n as int, last - 1) <= k,
                self@.wf(),
                self@ == apply_range(
                    start_of(m0, evs, n as int, last as int),
                    evs,
                    in_effect_at(evs, n as int, last - 1),
                    k as int,
                ),
                forall|i: int|
                    0 <= i < last ==> #[trigger] out[i] == state_at(m0, evs, n as int, i).level(),
            decreases evs.len() - k,
        {
            let b = next_boundary(last, events[k].offset, n);
            proof {
                lemma_boundary_bounds(evs, n as int, k as int);
            }
            if b > last {
                proof {
                    lemma_in_effect_at(evs, n as int, last as int, k as int);
                    lemma_in_effect_at(evs, n as int, b - 1, k as int);
                    lemma_segment_states(m0, evs, n as int, last as int, b as int, k as int, (b - last) as nat);
                    assert forall|i: int| last <= i < b implies state_at(m0, evs, n as int, i)
                        == state_at(m0, evs, n as int, last as int).advance_by((i - last) as nat) by {
                        lemma_segment_states(m0, evs, n as int, last as int, b as int, k as int, (i - last) as nat);
                    }
                }
                self.play(last, b, out);
            }
            let ghost before = self@;
            assert(before == apply_range(
                start_of(m0, evs, n as int, b as int),
                evs,
                in_effect_at(evs, n as int, b - 1),
                k as int,
            ));
            if let EventPayload::TransportInfo { bpm, speed, beat_position } = events[k].payload {
                self.update_position(bpm, speed, beat_position);
            }
            assert(self@ == before.apply(evs[k as int].payload));
            last = b;
            k = k + 1;
        }
        proof {
            lemma_in_effect_at(evs, n as int, last as int, k as int);
            if last < n {
                lemma_in_effect_at(evs, n as int, n - 1, k as int);
                lemma_segment_states(m0, evs, n as int, last as int, n as int, k as int, (n - last) as nat);
                assert forall|i: int| last <= i < n implies state_at(m0, evs, n as int, i)
                    == state_at(m0, evs, n as int, last as int).advance_by((i - last) as nat) by {
                    lemma_segment_states(m0, evs, n as int, last as int, n as int, k as int, (i - last) as nat);
                }
            }
        }
        self.play(last, n, out);
    }
}

} // verus!
