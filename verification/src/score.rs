//! The parsed score model: tracks of delta-timed events, the subset of the
//! standard MIDI event vocabulary that the visualization consumes (note-on,
//! note-off, tempo), and the loader's error type.

use vstd::prelude::*;
use crate::note::MAX_TRACK_TICKS;

verus! {

/// The kinds of track event the visualization consumes. Every other event in
/// the source stream is kept as `Other` so that its delta time still advances
/// the running tick counter.
#[derive(Clone, Copy, Debug, PartialEq, Eq, Structural)]
pub enum EventKind {
    /// A note-on message. A velocity of zero means the same as a note-off.
    NoteOn { channel: u8, key: u8, velocity: u8 },
    /// A note-off message.
    NoteOff { channel: u8, key: u8 },
    /// A tempo meta-event, in microseconds per beat.
    Tempo { us_per_beat: u32 },
    /// Any other event; only its delta time matters.
    Other,
}

/// One event of a track: a delta time in ticks since the previous event of
/// the same track, and the event itself.
#[derive(Clone, Copy, Debug, PartialEq, Eq, Structural)]
pub struct TrackEvent {
    pub delta: u32,
    pub kind: EventKind,
}

/// A parsed MIDI container: the header's timing resolution and the events of
/// every track chunk, in file order.
pub struct MidiScore {
    /// Ticks per quarter note, at least 1; 480 when the header declares a
    /// non-metrical or degenerate timing format.
    pub ticks_per_beat: u16,
    pub tracks: Vec<Vec<TrackEvent>>,
}

/// Why a byte stream was rejected by the loader.
#[derive(Clone, Copy, Debug, PartialEq, Eq, Structural)]
pub enum LoadError {
    /// The file could not be read at all. Never produced by the parser
    /// itself; the host maps an I/O failure to this variant.
    Unreadable,
    /// The bytes do not form a valid standard MIDI container.
    Malformed,
}

/// The tracks of a score as a sequence of sequences of events.
pub open spec fn tracks_seq(tracks: Seq<Vec<TrackEvent>>) -> Seq<Seq<TrackEvent>> {
    tracks.map_values(|t: Vec<TrackEvent>| t@)
}

impl MidiScore {
    /// The mathematical content of a score: its resolution and its tracks'
    /// events.
    pub open spec fn ticks(self) -> u16 {
        self.ticks_per_beat
    }

    pub open spec fn events(self) -> Seq<Seq<TrackEvent>> {
        tracks_seq(self.tracks@)
    }
}

/// The channel and data values a single event can carry: channels are four
/// bits, keys and velocities seven, and a tempo is a three-byte quantity.
pub open spec fn event_wf(ev: TrackEvent) -> bool {
    &&& ev.delta < 0x1000_0000
    &&& match ev.kind {
        EventKind::NoteOn { channel, key, velocity } => channel < 16 && key < 128 && velocity
            < 128,
        EventKind::NoteOff { channel, key } => channel < 16 && key < 128,
        EventKind::Tempo { us_per_beat } => us_per_beat < 0x100_0000,
        EventKind::Other => true,
    }
}

/// Total of the delta times of a sequence of events.
pub open spec fn sum_deltas(evs: Seq<TrackEvent>) -> int
    decreases evs.len(),
{
    if evs.len() == 0 {
        0
    } else {
        sum_deltas(evs.drop_last()) + evs.last().delta
    }
}

/// A track the loader can replay: every event is well formed and the running
/// tick counter stays below `MAX_TRACK_TICKS`. Both bounds are forced by the
/// container format (see `crate::parser`).
pub open spec fn track_wf(evs: Seq<TrackEvent>) -> bool {
    &&& forall|i: int| 0 <= i < evs.len() ==> event_wf(#[trigger] evs[i])
    &&& sum_deltas(evs) < MAX_TRACK_TICKS
}

/// A score the loader can replay.
pub open spec fn score_wf(ticks_per_beat: u16, tracks: Seq<Seq<TrackEvent>>) -> bool {
    &&& ticks_per_beat >= 1
    &&& forall|t: int| 0 <= t < tracks.len() ==> track_wf(#[trigger] tracks[t])
}

/// Delta times are non-negative, so their total is too.
pub proof fn lemma_sum_deltas_nonneg(evs: Seq<TrackEvent>)
    ensures
        sum_deltas(evs) >= 0,
    decreases evs.len(),
{
    if evs.len() > 0 {
        lemma_sum_deltas_nonneg(evs.drop_last());
    }
}

/// The running tick total never exceeds the whole track's delta total.
pub proof fn lemma_sum_deltas_prefix(evs: Seq<TrackEvent>, n: int)
    requires
        0 <= n <= evs.len(),
    ensures
        sum_deltas(evs.take(n)) <= sum_deltas(evs),
    decreases evs.len() - n,
{
    if n == evs.len() {
        assert(evs.take(n) =~= evs);
    } else {
        lemma_sum_deltas_prefix(evs, n + 1);
        assert(evs.take(n + 1).drop_last() =~= evs.take(n));
        assert(sum_deltas(evs.take(n + 1)) == sum_deltas(evs.take(n)) + evs[n].delta);
    }
}

} // verus!
