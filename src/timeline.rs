use vstd::prelude::*;

verus! {

/// What a control event carries, once decoded.
#[derive(Clone, Copy, Debug, PartialEq, Eq, Structural)]
pub enum EventPayload {
    NoteOn { channel: u8, pitch: u8, velocity: u8 },
    NoteOff { channel: u8, pitch: u8, velocity: u8 },
    ProgramChange { program: u8 },
    /// Host transport. Each field is optional: `bpm` in thousandths of a beat per minute,
    /// `speed` in thousandths (0 is stopped), `beat_position` (the beat within the bar) in
    /// millionths of a beat.
    TransportInfo { bpm: Option<u32>, speed: Option<i32>, beat_position: Option<u64> },
    Unrecognized,
}

/// A decoded event and the frame of the block at which it takes effect.
#[derive(Clone, Copy, Debug, PartialEq, Eq, Structural)]
pub struct Event {
    pub offset: usize,
    pub payload: EventPayload,
}

/// An event offset pulled up to the previous boundary and down to the block end.
pub open spec fn clamp_boundary(offset: int, last: int, n: int) -> int {
    if offset < last {
        last
    } else if offset > n {
        n
    } else {
        offset
    }
}

/// The frame at which the `k`-th event takes effect in a block of `n` frames
/// (`-1` stands for the block start). For an ordered timeline inside the block this is the
/// event's own offset.
pub open spec fn boundary(events: Seq<Event>, n: int, k: int) -> int
    decreases k + 1,
{
    if k < 0 {
        0
    } else {
        clamp_boundary(events[k].offset as int, boundary(events, n, k - 1), n)
    }
}

/// How many of the first `m` events take effect at or before frame `i`.
pub open spec fn count_through(events: Seq<Event>, n: int, i: int, m: int) -> int
    decreases m,
{
    if m <= 0 {
        0
    } else {
        count_through(events, n, i, m - 1) + if boundary(events, n, m - 1) <= i {
            1int
        } else {
            0int
        }
    }
}

/// How many events are in effect when frame `i` is rendered.
pub open spec fn in_effect_at(events: Seq<Event>, n: int, i: int) -> int {
    count_through(events, n, i, events.len() as int)
}

/// First frame of segment `k`: segment `k` runs up to event `k`, the last one to the block end.
pub open spec fn segment_begin(events: Seq<Event>, n: int, k: int) -> int {
    boundary(events, n, k - 1)
}

/// End (exclusive) of segment `k`.
pub open spec fn segment_end(events: Seq<Event>, n: int, k: int) -> int {
    if k < events.len() {
        boundary(events, n, k)
    } else {
        n
    }
}

pub proof fn lemma_boundary_bounds(events: Seq<Event>, n: int, k: int)
    requires
        0 <= n,
        k < events.len(),
    ensures
        0 <= boundary(events, n, k) <= n,
        k >= 0 ==> boundary(events, n, k - 1) <= boundary(events, n, k),
    decreases k + 1,
{
    if k >= 0 {
        lemma_boundary_bounds(events, n, k - 1);
    }
}

pub proof fn lemma_boundary_monotone(events: Seq<Event>, n: int, j: int, k: int)
    requires
        0 <= n,
        -1 <= j <= k < events.len(),
    ensures
        boundary(events, n, j) <= boundary(events, n, k),
    decreases k - j,
{
    if j < k {
        lemma_boundary_bounds(events, n, k);
        lemma_boundary_monotone(events, n, j, k - 1);
    }
}

/// The events in effect at a frame are a prefix of the timeline.
proof fn lemma_count_prefix(events: Seq<Event>, n: int, i: int, m: int)
    requires
        0 <= n,
        0 <= m <= events.len(),
    ensures
        0 <= count_through(events, n, i, m) <= m,
        forall|j: int|
            0 <= j < count_through(events, n, i, m) ==> #[trigger] boundary(events, n, j) <= i,
        count_through(events, n, i, m) < m ==> i < boundary(
            events,
            n,
            count_through(events, n, i, m),
        ),
    decreases m,
{
    if m > 0 {
        lemma_count_prefix(events, n, i, m - 1);
        let c = count_through(events, n, i, m - 1);
        if c < m - 1 {
            lemma_boundary_monotone(events, n, c, m - 1);
        }
    }
}

pub proof fn lemma_count_bounds(events: Seq<Event>, n: int, i: int)
    requires
        0 <= n,
    ensures
        0 <= in_effect_at(events, n, i) <= events.len(),
{
    lemma_count_prefix(events, n, i, events.len() as int);
}

/// Frame `i` is rendered after exactly the events `0..k` when event `k - 1` takes effect at
/// or before it and event `k` after it.
pub proof fn lemma_in_effect_at(events: Seq<Event>, n: int, i: int, k: int)
    requires
        0 <= n,
        0 <= k <= events.len(),
    ensures
        in_effect_at(events, n, i) == k <==> (k == 0 || boundary(events, n, k - 1) <= i) && (k
            == events.len() || i < boundary(events, n, k)),
{
    let len = events.len() as int;
    lemma_count_prefix(events, n, i, len);
    let c = in_effect_at(events, n, i);
    if (k == 0 || boundary(events, n, k - 1) <= i) && (k == len || i < boundary(events, n, k)) {
        if c < k {
            lemma_boundary_monotone(events, n, c, k - 1);
        }
        if c > k {
            assert(boundary(events, n, k) <= i);
        }
    }
    if c == k {
        if k > 0 {
            assert(boundary(events, n, k - 1) <= i);
        }
    }
}

/// Before the block start no event is in effect, and at the block end all are.
pub proof fn lemma_in_effect_ends(events: Seq<Event>, n: int)
    requires
        0 <= n,
    ensures
        in_effect_at(events, n, -1) == 0,
        in_effect_at(events, n, n) == events.len(),
{
    let len = events.len() as int;
    lemma_count_prefix(events, n, -1, len);
    lemma_count_prefix(events, n, n, len);
    if 0 < len {
        lemma_boundary_bounds(events, n, 0);
    }
    if in_effect_at(events, n, n) < len {
        lemma_boundary_bounds(events, n, in_effect_at(events, n, n));
    }
}

/// The segments of a block of `n` frames tile `[0, n)`: the first starts at frame 0, each one
/// ends where the next begins, the last ends at `n`, none runs backwards, and every frame lies
/// in exactly one segment, the one that follows the events in effect at that frame. This holds
/// for every timeline, ordered or not, of any length.
pub proof fn lemma_segments_tile(events: Seq<Event>, n: int)
    requires
        0 <= n,
    ensures
        segment_begin(events, n, 0) == 0,
        segment_end(events, n, events.len() as int) == n,
        forall|k: int|
            0 <= k <= events.len() ==> #[trigger] segment_begin(events, n, k) <= segment_end(
                events,
                n,
                k,
            ),
        forall|k: int|
            0 <= k < events.len() ==> #[trigger] segment_end(events, n, k) == segment_begin(
                events,
                n,
                k + 1,
            ),
        forall|i: int, k: int|
            #![trigger segment_begin(events, n, k), in_effect_at(events, n, i)]
            0 <= i < n && 0 <= k <= events.len() ==> (segment_begin(events, n, k) <= i
                < segment_end(events, n, k) <==> k == in_effect_at(events, n, i)),
{
    let len = events.len() as int;
    assert forall|k: int| 0 <= k <= len implies #[trigger] segment_begin(events, n, k)
        <= segment_end(events, n, k) by {
        if k < len {
            lemma_boundary_bounds(events, n, k);
        } else if k > 0 {
            lemma_boundary_bounds(events, n, k - 1);
        }
    }
    assert forall|i: int, k: int|
        #![trigger segment_begin(events, n, k), in_effect_at(events, n, i)]
        0 <= i < n && 0 <= k <= len implies (segment_begin(events, n, k) <= i < segment_end(
            events,
            n,
            k,
        ) <==> k == in_effect_at(events, n, i)) by {
        lemma_in_effect_at(events, n, i, k);
    }
}

/// Where the next segment ends: an event offset clamped to `[last, n]`.
pub(crate) fn next_boundary(last: usize, offset: usize, n: usize) -> (r: usize)
    requires
        last <= n,
    ensures
        r == clamp_boundary(offset as int, last as int, n as int),
{
    if offset < last {
        last
    } else if offset > n {
        n
    } else {
        offset
    }
}

/// The segments into which `events` split a block of `n` frames, as `(begin, end)` pairs:
/// one before each event and one for the tail.
pub fn segment_ranges(events: &Vec<Event>, n: usize) -> (r: Vec<(usize, usize)>)
    ensures
        r.len() == events.len() + 1,
        forall|k: int|
            0 <= k < r.len() ==> #[trigger] r[k] == (
                segment_begin(events@, n as int, k) as usize,
                segment_end(events@, n as int, k) as usize,
            ),
{
    let mut r: Vec<(usize, usize)> = Vec::new();
    let mut last: usize = 0;
    let mut k: usize = 0;
    while k < events.len()
        invariant
            k <= events.len(),
            last <= n,
            last == boundary(events@, n as int, k - 1),
            r.len() == k,
            forall|j: int|
                0 <= j < k ==> #[trigger] r[j] == (
                    segment_begin(events@, n as int, j) as usize,
                    segment_end(events@, n as int, j) as usize,
                ),
        decreases events.len() - k,
    {
        let b = next_boundary(last, events[k].offset, n);
        r.push((last, b));
        last = b;
        k = k + 1;
    }
    r.push((last, n));
    r
}

} // verus!
