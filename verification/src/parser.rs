//! Parsing a standard MIDI container from bytes: header chunk, track chunks,
//! variable-length quantities, running status, and the event vocabulary of
//! `crate::score`. The specification functions here define the format; the
//! executable parser is proved to return exactly what they describe.

use vstd::prelude::*;
use crate::score::{EventKind, TrackEvent, MidiScore, LoadError};
use crate::score::{event_wf, sum_deltas, track_wf, score_wf, tracks_seq};

verus! {

/// Big-endian 16-bit value at `i`.
pub open spec fn be16(s: Seq<u8>, i: int) -> int {
    s[i] * 0x100 + s[i + 1]
}

/// Big-endian 24-bit value at `i`.
pub open spec fn be24(s: Seq<u8>, i: int) -> int {
    s[i] * 0x1_0000 + s[i + 1] * 0x100 + s[i + 2]
}

/// Big-endian 32-bit value at `i`.
pub open spec fn be32(s: Seq<u8>, i: int) -> int {
    s[i] * 0x100_0000 + s[i + 1] * 0x1_0000 + s[i + 2] * 0x100 + s[i + 3]
}

/// A variable-length quantity read in `[i, end)`: up to four bytes, seven
/// value bits each, all but the last with the high bit set. Yields the value
/// and the position after it, or `None` when `[i, end)` does not start with
/// a well-formed quantity.
pub open spec fn spec_vlq(s: Seq<u8>, i: int, end: int) -> Option<(u32, int)> {
    if i < end && s[i] < 0x80 {
        Some((s[i] as u32, i + 1))
    } else if i + 1 < end && s[i + 1] < 0x80 {
        Some((((s[i] - 0x80) * 0x80 + s[i + 1]) as u32, i + 2))
    } else if i + 2 < end && s[i + 2] < 0x80 {
        Some((((s[i] - 0x80) * 0x4000 + (s[i + 1] - 0x80) * 0x80 + s[i + 2]) as u32, i + 3))
    } else if i + 3 < end && s[i + 3] < 0x80 {
        Some(
            (((s[i] - 0x80) * 0x20_0000 + (s[i + 1] - 0x80) * 0x4000 + (s[i + 2] - 0x80) * 0x80
                + s[i + 3]) as u32, i + 4),
        )
    } else {
        None
    }
}

/// A channel message whose status byte is `status`, with data bytes at `i`:
/// the event kind and the position after it. Data bytes are taken modulo 128,
/// as their high bit carries no value.
pub open spec fn spec_channel_event(s: Seq<u8>, i: int, end: int, status: u8) -> Option<
    (EventKind, int),
> {
    let hi = status / 16;
    let channel = status % 16;
    if hi == 12 || hi == 13 {
        // program change and channel pressure carry one data byte
        if i + 1 <= end {
            Some((EventKind::Other, i + 1))
        } else {
            None
        }
    } else {
        if i + 2 <= end {
            let key = (s[i] % 0x80) as u8;
            let velocity = (s[i + 1] % 0x80) as u8;
            if hi == 8 {
                Some((EventKind::NoteOff { channel, key }, i + 2))
            } else if hi == 9 {
                Some((EventKind::NoteOn { channel, key, velocity }, i + 2))
            } else {
                Some((EventKind::Other, i + 2))
            }
        } else {
            None
        }
    }
}

/// One event at `i` in `[i, end)` under the given running status: its kind,
/// the position after it, and the running status it leaves behind. Meta and
/// system-exclusive events cancel the running status; a data byte without one
/// is malformed.
pub open spec fn spec_event(s: Seq<u8>, i: int, end: int, running: Option<u8>) -> Option<
    (EventKind, int, Option<u8>),
> {
    if i >= end {
        None
    } else {
        let b = s[i];
        if b == 0xFF {
            // meta event: type byte, length quantity, payload
            if i + 1 < end {
                match spec_vlq(s, i + 2, end) {
                    Some((mlen, j)) => if j + mlen <= end {
                        if s[i + 1] == 0x51 && mlen == 3 {
                            Some(
                                (EventKind::Tempo { us_per_beat: be24(s, j) as u32 }, j + mlen,
                                None),
                            )
                        } else {
                            Some((EventKind::Other, j + mlen, None))
                        }
                    } else {
                        None
                    },
                    None => None,
                }
            } else {
                None
            }
        } else if b == 0xF0 || b == 0xF7 {
            // system-exclusive event: length quantity, payload
            match spec_vlq(s, i + 1, end) {
                Some((xlen, j)) => if j + xlen <= end {
                    Some((EventKind::Other, j + xlen, None))
                } else {
                    None
                },
                None => None,
            }
        } else if 0x80 <= b < 0xF0 {
            match spec_channel_event(s, i + 1, end, b) {
                Some((kind, j)) => Some((kind, j, Some(b))),
                None => None,
            }
        } else if b < 0x80 {
            match running {
                Some(status) => match spec_channel_event(s, i, end, status) {
                    Some((kind, j)) => Some((kind, j, running)),
                    None => None,
                },
                None => None,
            }
        } else {
            // a system common or real-time status byte has no place in a file
            None
        }
    }
}

/// One delta-timed track event at `i`: the event, the position after it, and
/// the running status it leaves behind.
pub open spec fn spec_track_event(s: Seq<u8>, i: int, end: int, running: Option<u8>) -> Option<
    (TrackEvent, int, Option<u8>),
> {
    match spec_vlq(s, i, end) {
        Some((delta, j)) => match spec_event(s, j, end, running) {
            Some((kind, k, r)) => Some((TrackEvent { delta, kind }, k, r)),
            None => None,
        },
        None => None,
    }
}

/// The events of a track chunk, read from `i` until they fill `[i, end)`
/// exactly. `None` when an event is malformed or crosses `end`.
pub open spec fn spec_events(s: Seq<u8>, i: int, end: int, running: Option<u8>) -> Option<
    Seq<TrackEvent>,
>
    decreases end - i,
{
    if i == end {
        Some(Seq::empty())
    } else {
        match spec_track_event(s, i, end, running) {
            Some((ev, j, r)) => if i < j <= end {
                match spec_events(s, j, end, r) {
                    Some(rest) => Some(seq![ev] + rest),
                    None => None,
                }
            } else {
                None
            },
            None => None,
        }
    }
}

/// Whether the chunk at `i` is a track chunk (`MTrk`).
pub open spec fn is_mtrk(s: Seq<u8>, i: int) -> bool {
    s[i] == 0x4D && s[i + 1] == 0x54 && s[i + 2] == 0x72 && s[i + 3] == 0x6B
}

/// The tracks of every chunk from `i` to the end of the bytes: a chunk is a
/// four-byte name, a 32-bit big-endian length, and that many bytes. Track
/// chunks are parsed; chunks of any other name are skipped.
pub open spec fn spec_chunks(s: Seq<u8>, i: int) -> Option<Seq<Seq<TrackEvent>>>
    decreases s.len() - i,
{
    if i == s.len() {
        Some(Seq::empty())
    } else if i + 8 > s.len() {
        None
    } else {
        let clen = be32(s, i + 4);
        let next = i + 8 + clen;
        if next > s.len() {
            None
        } else if is_mtrk(s, i) {
            match spec_events(s, i + 8, next, None) {
                Some(evs) => match spec_chunks(s, next) {
                    Some(rest) => Some(seq![evs] + rest),
                    None => None,
                },
                None => None,
            }
        } else {
            spec_chunks(s, next)
        }
    }
}

/// A whole standard MIDI container: the `MThd` header with its timing word,
/// then the chunks. Yields ticks per beat and the tracks' events. The
/// resolution falls back to 480 when the timing word is not a positive
/// metrical (ticks-per-beat) value.
pub open spec fn spec_parse_midi(s: Seq<u8>) -> Option<(u16, Seq<Seq<TrackEvent>>)> {
    if s.len() < 8 {
        None
    } else if !(s[0] == 0x4D && s[1] == 0x54 && s[2] == 0x68 && s[3] == 0x64) {
        None
    } else {
        let hlen = be32(s, 4);
        if hlen < 6 || 8 + hlen > s.len() {
            None
        } else {
            let division = be16(s, 12);
            let tpb: u16 = if 1 <= division < 0x8000 {
                division as u16
            } else {
                480
            };
            match spec_chunks(s, 8 + hlen) {
                Some(tracks) => Some((tpb, tracks)),
                None => None,
            }
        }
    }
}

/// A parsed event is well formed, ends after it starts, stays inside the
/// chunk, and its delta time is small next to the bytes it took: a quantity
/// of `d` bytes is below `1 << (7 * d)` and the event costs one byte more.
pub proof fn lemma_track_event_bounds(s: Seq<u8>, i: int, end: int, running: Option<u8>)
    requires
        spec_track_event(s, i, end, running) is Some,
    ensures
        ({
            let (ev, j, r) = spec_track_event(s, i, end, running)->Some_0;
            &&& i < j <= end
            &&& event_wf(ev)
            &&& ev.delta <= 0x800_0000 * (j - i)
        }),
{
}

/// Prepending one event adds its delta to the total.
pub proof fn lemma_sum_deltas_cons(ev: TrackEvent, rest: Seq<TrackEvent>)
    ensures
        sum_deltas(seq![ev] + rest) == ev.delta + sum_deltas(rest),
    decreases rest.len(),
{
    if rest.len() == 0 {
        assert((seq![ev] + rest).drop_last() =~= Seq::<TrackEvent>::empty());
        assert((seq![ev] + rest).last() == ev);
        assert(sum_deltas(seq![ev] + rest) == sum_deltas(Seq::<TrackEvent>::empty()) + ev.delta);
    } else {
        lemma_sum_deltas_cons(ev, rest.drop_last());
        assert((seq![ev] + rest).drop_last() =~= seq![ev] + rest.drop_last());
        assert((seq![ev] + rest).last() == rest.last());
        assert(sum_deltas(seq![ev] + rest) == sum_deltas(seq![ev] + rest.drop_last())
            + rest.last().delta);
    }
}

/// The events of a chunk are all well formed and their delta times add up to
/// less than `1 << 27` per byte of the chunk.
pub proof fn lemma_events_wf(s: Seq<u8>, i: int, end: int, running: Option<u8>)
    requires
        i <= end,
        spec_events(s, i, end, running) is Some,
    ensures
        ({
            let evs = spec_events(s, i, end, running)->Some_0;
            &&& forall|k: int| 0 <= k < evs.len() ==> event_wf(#[trigger] evs[k])
            &&& sum_deltas(evs) <= 0x800_0000 * (end - i)
        }),
    decreases end - i,
{
    if i == end {
    } else {
        let (ev, j, r) = spec_track_event(s, i, end, running)->Some_0;
        lemma_track_event_bounds(s, i, end, running);
        lemma_events_wf(s, j, end, r);
        let rest = spec_events(s, j, end, r)->Some_0;
        lemma_sum_deltas_cons(ev, rest);
        let evs = spec_events(s, i, end, running)->Some_0;
        assert(forall|k: int| 0 <= k < evs.len() ==> event_wf(#[trigger] evs[k])) by {
            assert(forall|k: int| 1 <= k < evs.len() ==> evs[k] == rest[k - 1]);
        }
    }
}

/// Every track of a parsed container can be replayed: a chunk's length field
/// is 32 bits wide, so its delta total stays below `1 << 59`.
pub proof fn lemma_chunks_wf(s: Seq<u8>, i: int)
    requires
        0 <= i <= s.len(),
        spec_chunks(s, i) is Some,
    ensures
        ({
            let tracks = spec_chunks(s, i)->Some_0;
            forall|t: int| 0 <= t < tracks.len() ==> track_wf(#[trigger] tracks[t])
        }),
    decreases s.len() - i,
{
    if i == s.len() {
    } else {
        let clen = be32(s, i + 4);
        let next = i + 8 + clen;
        lemma_chunks_wf(s, next);
        if is_mtrk(s, i) {
            lemma_events_wf(s, i + 8, next, None);
            let evs = spec_events(s, i + 8, next, None)->Some_0;
            assert(sum_deltas(evs) <= 0x800_0000 * clen);
            let rest = spec_chunks(s, next)->Some_0;
            let tracks = spec_chunks(s, i)->Some_0;
            assert(forall|t: int| 1 <= t < tracks.len() ==> tracks[t] == rest[t - 1]);
        }
    }
}

/// Reads a variable-length quantity in `[pos, end)`.
fn parse_vlq(bytes: &Vec<u8>, pos: usize, end: usize) -> (r: Option<(u32, usize)>)
    requires
        pos <= end <= bytes@.len(),
    ensures
        match r {
            Some((v, j)) => spec_vlq(bytes@, pos as int, end as int) == Some((v, j as int)) && pos
                < j <= end,
            None => spec_vlq(bytes@, pos as int, end as int) is None,
        },
{
    if end - pos >= 1 && bytes[pos] < 0x80 {
        Some((bytes[pos] as u32, pos + 1))
    } else if end - pos >= 2 && bytes[pos + 1] < 0x80 {
        let v = ((bytes[pos] - 0x80) as u32) * 0x80 + bytes[pos + 1] as u32;
        Some((v, pos + 2))
    } else if end - pos >= 3 && bytes[pos + 2] < 0x80 {
        let v = ((bytes[pos] - 0x80) as u32) * 0x4000 + ((bytes[pos + 1] - 0x80) as u32) * 0x80
            + bytes[pos + 2] as u32;
        Some((v, pos + 3))
    } else if end - pos >= 4 && bytes[pos + 3] < 0x80 {
        let v = ((bytes[pos] - 0x80) as u32) * 0x20_0000 + ((bytes[pos + 1] - 0x80) as u32)
            * 0x4000 + ((bytes[pos + 2] - 0x80) as u32) * 0x80 + bytes[pos + 3] as u32;
        Some((v, pos + 4))
    } else {
        None
    }
}

/// Reads the data bytes of a channel message with status byte `status`.
fn parse_channel_event(bytes: &Vec<u8>, pos: usize, end: usize, status: u8) -> (r: Option<
    (EventKind, usize),
>)
    requires
        pos <= end <= bytes@.len(),
        0x80 <= status < 0xF0,
    ensures
        match r {
            Some((kind, j)) => spec_channel_event(bytes@, pos as int, end as int, status) == Some(
                (kind, j as int),
            ) && pos < j <= end,
            None => spec_channel_event(bytes@, pos as int, end as int, status) is None,
        },
{
    let hi = status / 16;
    let channel = status % 16;
    if hi == 12 || hi == 13 {
        if end - pos >= 1 {
            Some((EventKind::Other, pos + 1))
        } else {
            None
        }
    } else {
        if end - pos >= 2 {
            let key = bytes[pos] % 0x80;
            let velocity = bytes[pos + 1] % 0x80;
            if hi == 8 {
                Some((EventKind::NoteOff { channel, key }, pos + 2))
            } else if hi == 9 {
                Some((EventKind::NoteOn { channel, key, velocity }, pos + 2))
            } else {
                Some((EventKind::Other, pos + 2))
            }
        } else {
            None
        }
    }
}

/// Reads one event at `pos` under the given running status.
fn parse_event(bytes: &Vec<u8>, pos: usize, end: usize, running: Option<u8>) -> (r: Option<
    (EventKind, usize, Option<u8>),
>)
    requires
        pos <= end <= bytes@.len(),
        match running {
            Some(st) => 0x80 <= st < 0xF0,
            None => true,
        },
    ensures
        match r {
            Some((kind, j, rr)) => spec_event(bytes@, pos as int, end as int, running) == Some(
                (kind, j as int, rr),
            ) && pos < j <= end && match rr {
                Some(st) => 0x80 <= st < 0xF0,
                None => true,
            },
            None => spec_event(bytes@, pos as int, end as int, running) is None,
        },
{
    if pos >= end {
        return None;
    }
    let b = bytes[pos];
    if b == 0xFF {
        if end - pos >= 2 {
            let meta_type = bytes[pos + 1];
            match parse_vlq(bytes, pos + 2, end) {
                Some((mlen, j)) => {
                    if (end - j) as u64 >= mlen as u64 {
                        if meta_type == 0x51 && mlen == 3 {
                            let us_per_beat = (bytes[j] as u32) * 0x1_0000 + (bytes[j + 1] as u32)
                                * 0x100 + bytes[j + 2] as u32;
                            Some((EventKind::Tempo { us_per_beat }, j + mlen as usize, None))
                        } else {
                            Some((EventKind::Other, j + mlen as usize, None))
                        }
                    } else {
                        None
                    }
                },
                None => None,
            }
        } else {
            None
        }
    } else if b == 0xF0 || b == 0xF7 {
        match parse_vlq(bytes, pos + 1, end) {
            Some((xlen, j)) => {
                if (end - j) as u64 >= xlen as u64 {
                    Some((EventKind::Other, j + xlen as usize, None))
                } else {
                    None
                }
            },
            None => None,
        }
    } else if b >= 0x80 && b < 0xF0 {
        match parse_channel_event(bytes, pos + 1, end, b) {
            Some((kind, j)) => Some((kind, j, Some(b))),
            None => None,
        }
    } else if b < 0x80 {
        match running {
            Some(status) => match parse_channel_event(bytes, pos, end, status) {
                Some((kind, j)) => Some((kind, j, running)),
                None => None,
            },
            None => None,
        }
    } else {
        // a system common or real-time status byte has no place in a file
        None
    }
}

/// Reads one delta-timed track event at `pos`.
fn parse_track_event(bytes: &Vec<u8>, pos: usize, end: usize, running: Option<u8>) -> (r: Option<
    (TrackEvent, usize, Option<u8>),
>)
    requires
        pos <= end <= bytes@.len(),
        match running {
            Some(st) => 0x80 <= st < 0xF0,
            None => true,
        },
    ensures
        match r {
            Some((ev, j, rr)) => spec_track_event(bytes@, pos as int, end as int, running) == Some(
                (ev, j as int, rr),
            ) && pos < j <= end && match rr {
                Some(st) => 0x80 <= st < 0xF0,
                None => true,
            },
            None => spec_track_event(bytes@, pos as int, end as int, running) is None,
        },
{
    match parse_vlq(bytes, pos, end) {
        Some((delta, j)) => match parse_event(bytes, j, end, running) {
            Some((kind, k, rr)) => Some((TrackEvent { delta, kind }, k, rr)),
            None => None,
        },
        None => None,
    }
}

/// Reads the events of a track chunk, which must fill `[start, end)` exactly.
fn parse_events(bytes: &Vec<u8>, start: usize, end: usize) -> (r: Option<Vec<TrackEvent>>)
    requires
        start <= end <= bytes@.len(),
    ensures
        match r {
            Some(evs) => spec_events(bytes@, start as int, end as int, None) == Some(evs@),
            None => spec_events(bytes@, start as int, end as int, None) is None,
        },
{
    let mut pos = start;
    let mut running: Option<u8> = None;
    let mut evs: Vec<TrackEvent> = Vec::new();
    while pos < end
        invariant
            start <= pos <= end <= bytes@.len(),
            match running {
                Some(st) => 0x80 <= st < 0xF0,
                None => true,
            },
            spec_events(bytes@, start as int, end as int, None) == match spec_events(
                bytes@,
                pos as int,
                end as int,
                running,
            ) {
                Some(rest) => Some(evs@ + rest),
                None => None::<Seq<TrackEvent>>,
            },
        decreases end - pos,
    {
        match parse_track_event(bytes, pos, end, running) {
            Some((ev, j, rr)) => {
                proof {
                    let g = spec_events(bytes@, j as int, end as int, rr);
                    if g is Some {
                        assert(evs@ + (seq![ev] + g->Some_0) =~= (evs@ + seq![ev]) + g->Some_0);
                    }
                }
                evs.push(ev);
                pos = j;
                running = rr;
            },
            None => {
                return None;
            },
        }
    }
    proof {
        assert(evs@ + Seq::<TrackEvent>::empty() =~= evs@);
    }
    Some(evs)
}

/// Reads one chunk at `pos`: the track's events when the chunk is a track
/// chunk, nothing when it is of another name, and in both cases the position
/// after the chunk.
fn parse_chunk(bytes: &Vec<u8>, pos: usize) -> (r: Option<(Option<Vec<TrackEvent>>, usize)>)
    requires
        pos < bytes@.len(),
    ensures
        match r {
            Some((tr, next)) => pos < next <= bytes@.len() && match tr {
                Some(evs) => spec_chunks(bytes@, pos as int) == match spec_chunks(
                    bytes@,
                    next as int,
                ) {
                    Some(rest) => Some(seq![evs@] + rest),
                    None => None::<Seq<Seq<TrackEvent>>>,
                },
                None => spec_chunks(bytes@, pos as int) == spec_chunks(bytes@, next as int),
            },
            None => spec_chunks(bytes@, pos as int) is None,
        },
{
    if bytes.len() - pos < 8 {
        return None;
    }
    let clen = (bytes[pos + 4] as u64) * 0x100_0000 + (bytes[pos + 5] as u64) * 0x1_0000 + (
    bytes[pos + 6] as u64) * 0x100 + bytes[pos + 7] as u64;
    if clen > (bytes.len() - (pos + 8)) as u64 {
        return None;
    }
    let next = pos + 8 + clen as usize;
    if bytes[pos] == 0x4D && bytes[pos + 1] == 0x54 && bytes[pos + 2] == 0x72 && bytes[pos + 3]
        == 0x6B {
        match parse_events(bytes, pos + 8, next) {
            Some(evs) => Some((Some(evs), next)),
            None => None,
        }
    } else {
        Some((None, next))
    }
}

/// Parses a standard MIDI container: returns exactly the score that
/// `spec_parse_midi` describes, or `LoadError::Malformed` when the bytes are
/// not one.
#[verifier::rlimit(30)]
pub fn parse_midi(bytes: &Vec<u8>) -> (r: Result<MidiScore, LoadError>)
    ensures
        match r {
            Ok(score) => spec_parse_midi(bytes@) == Some((score.ticks_per_beat, score.events()))
                && score_wf(score.ticks_per_beat, score.events()),
            Err(e) => spec_parse_midi(bytes@) is None && e == LoadError::Malformed,
        },
{
    if bytes.len() < 8 {
        return Err(LoadError::Malformed);
    }
    if !(bytes[0] == 0x4D && bytes[1] == 0x54 && bytes[2] == 0x68 && bytes[3] == 0x64) {
        return Err(LoadError::Malformed);
    }
    let hlen = (bytes[4] as u64) * 0x100_0000 + (bytes[5] as u64) * 0x1_0000 + (bytes[6] as u64)
        * 0x100 + bytes[7] as u64;
    if hlen < 6 || 8 + hlen > bytes.len() as u64 {
        return Err(LoadError::Malformed);
    }
    let division = (bytes[12] as u32) * 0x100 + bytes[13] as u32;
    let ticks_per_beat: u16 = if 1 <= division && division < 0x8000 {
        division as u16
    } else {
        480
    };
    let mut pos: usize = (8 + hlen) as usize;
    let mut tracks: Vec<Vec<TrackEvent>> = Vec::new();
    proof {
        let g = spec_chunks(bytes@, 8 + hlen);
        if g is Some {
            assert(tracks_seq(tracks@) + g->Some_0 =~= g->Some_0);
        }
    }
    let ghost hpos: int = 8 + hlen as int;
    while pos < bytes.len()
        invariant
            pos <= bytes@.len(),
            spec_parse_midi(bytes@) == match spec_chunks(bytes@, hpos) {
                Some(ts) => Some((ticks_per_beat, ts)),
                None => None::<(u16, Seq<Seq<TrackEvent>>)>,
            },
            spec_chunks(bytes@, hpos) == match spec_chunks(bytes@, pos as int) {
                Some(rest) => Some(tracks_seq(tracks@) + rest),
                None => None::<Seq<Seq<TrackEvent>>>,
            },
        decreases bytes@.len() - pos,
    {
        match parse_chunk(bytes, pos) {
            Some((tr, next)) => {
                match tr {
                    Some(evs) => {
                        proof {
                            let g = spec_chunks(bytes@, next as int);
                            if g is Some {
                                assert(tracks_seq(tracks@) + (seq![evs@] + g->Some_0)
                                    =~= (tracks_seq(tracks@) + seq![evs@]) + g->Some_0);
                                assert(tracks_seq(tracks@.push(evs)) =~= tracks_seq(tracks@)
                                    + seq![evs@]);
                            }
                        }
                        tracks.push(evs);
                    },
                    None => {
                    },
                }
                pos = next;
            },
            None => {
                return Err(LoadError::Malformed);
            },
        }
    }
    proof {
        assert(tracks_seq(tracks@) + Seq::<Seq<TrackEvent>>::empty() =~= tracks_seq(tracks@));
        lemma_parse_wf(bytes@);
    }
    let score = MidiScore { ticks_per_beat, tracks };
    Ok(score)
}

/// A parsed container is a well-formed score.
pub proof fn lemma_parse_wf(s: Seq<u8>)
    requires
        spec_parse_midi(s) is Some,
    ensures
        ({
            let (tpb, tracks) = spec_parse_midi(s)->Some_0;
            score_wf(tpb, tracks)
        }),
{
    let hlen = be32(s, 4);
    lemma_chunks_wf(s, 8 + hlen);
}

} // verus!
