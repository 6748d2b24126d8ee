//! The note data model: a discrete musical note with absolute start time and
//! duration in microseconds, and the conversion from MIDI ticks to
//! microseconds under a given tempo.

use vstd::prelude::*;

verus! {

/// Largest tick count a single track can reach. A track chunk's byte length
/// is a 32-bit field and every event costs at least two bytes while its
/// delta, a variable-length quantity, stays below `1 << 28`; the running
/// total therefore stays below `1 << 60` (see `crate::parser`).
pub const MAX_TRACK_TICKS: u64 = 0x1000_0000_0000_0000;

/// Largest microsecond value the loader can emit: a tick count below
/// `MAX_TRACK_TICKS` scaled by a tempo below `1 << 24` microseconds per beat
/// and divided by at least one tick per beat.
pub const MAX_TIME_US: u128 = 0x10_0000_0000_0000_0000_0000;

/// A discrete musical note, immutable after loading.
///
/// `start_time_us` is the absolute time from stream start and `duration_us`
/// the elapsed time between the matching note-on and note-off events, both in
/// microseconds and computed from tempo-adjusted tick counts.
#[derive(Clone, Copy, Debug, PartialEq, Eq, Structural)]
pub struct MidiNote {
    /// Key number, 0 to 127.
    pub pitch: u8,
    /// Intensity of the originating note-on, 0 to 127; preserved for
    /// fidelity, not used in rendering.
    pub velocity: u8,
    /// Absolute start time in microseconds from stream start.
    pub start_time_us: u128,
    /// Elapsed microseconds between the matching note-on and note-off.
    pub duration_us: u128,
}

/// How many microseconds a span of `ticks` lasts at `us_per_beat`
/// microseconds per beat and `ticks_per_beat` ticks per beat.
pub open spec fn spec_ticks_to_us(ticks: u64, ticks_per_beat: u16, us_per_beat: u32) -> int {
    (ticks * us_per_beat) / (ticks_per_beat as int)
}

/// Converts a tick span to microseconds under the tempo active at the span's
/// start: `us = ticks * us_per_beat / ticks_per_beat`, rounded down.
pub fn ticks_to_us(ticks: u64, ticks_per_beat: u16, us_per_beat: u32) -> (us: u128)
    requires
        ticks_per_beat >= 1,
    ensures
        us == spec_ticks_to_us(ticks, ticks_per_beat, us_per_beat),
{
    proof {
        assert((ticks as int) * (us_per_beat as int) <= (u64::MAX as int) * (u32::MAX as int))
            by (nonlinear_arith)
            requires
                ticks <= u64::MAX,
                us_per_beat <= u32::MAX,
        ;
    }
    ((ticks as u128) * (us_per_beat as u128)) / (ticks_per_beat as u128)
}

} // verus!
