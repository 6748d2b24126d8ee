//! The score loader's replay: every track is scanned with a running tick
//! counter (reset per track) while the tempo breakpoints are consumed in
//! order (tempo state persists across tracks); an open-note table keyed by
//! (channel, key) pairs note-ons with the events that close them, and every
//! closed span becomes a `MidiNote` timed under the tempo that was active at
//! its start tick.

use vstd::prelude::*;
use crate::note::{MidiNote, spec_ticks_to_us, ticks_to_us, MAX_TRACK_TICKS, MAX_TIME_US};
use crate::score::{EventKind, TrackEvent, MidiScore, LoadError, sum_deltas, event_wf, track_wf, score_wf};
use crate::tempo::{TempoEvent, tempo_map, spec_tempo_map, tempo_map_wf};

verus! {

/// One slot per (channel, key) pair: 16 channels of 128 keys.
pub const OPEN_TABLE_SIZE: usize = 2048;

/// A note-on waiting for the event that closes it: where it started, how hard
/// it was struck, and the tempo that was active when it started.
#[derive(Clone, Copy, Debug, PartialEq, Eq, Structural)]
pub struct OpenEntry {
    pub start_tick: u64,
    pub velocity: u8,
    pub us_per_beat: u32,
}

/// The replay state: the running tick counter of the current track, how far
/// the tempo breakpoints have been consumed, the tempo in force, the open
/// notes, and the notes emitted so far.
pub ghost struct LoadState {
    pub tick: int,
    pub tempo_ix: int,
    pub us_per_beat: u32,
    pub open: Seq<Option<OpenEntry>>,
    pub emitted: Seq<MidiNote>,
}

/// The open-table slot of a (channel, key) pair.
pub open spec fn key_ix(channel: u8, key: u8) -> int {
    channel * 128 + key
}

/// Consuming every breakpoint whose tick has been reached: the new index and
/// the tempo in force.
pub open spec fn spec_advance(map: Seq<TempoEvent>, ix: int, us_per_beat: u32, tick: int) -> (
    int,
    u32,
)
    decreases map.len() - ix,
{
    if 0 <= ix < map.len() && map[ix].tick <= tick {
        spec_advance(map, ix + 1, map[ix].us_per_beat, tick)
    } else {
        (ix, us_per_beat)
    }
}

/// The note an open entry becomes when closed at `end_tick`: both its start
/// and its duration are converted under the tempo that was active at its
/// start tick.
pub open spec fn note_of(entry: OpenEntry, key: u8, end_tick: int, ticks_per_beat: u16) -> MidiNote {
    MidiNote {
        pitch: key,
        velocity: entry.velocity,
        start_time_us: spec_ticks_to_us(entry.start_tick, ticks_per_beat, entry.us_per_beat)
            as u128,
        duration_us: spec_ticks_to_us(
            (end_tick - entry.start_tick) as u64,
            ticks_per_beat,
            entry.us_per_beat,
        ) as u128,
    }
}

/// Closing the open note of a (channel, key) pair at the current tick, if one
/// is open; without one the event is silently ignored.
pub open spec fn spec_close(st: LoadState, channel: u8, key: u8, ticks_per_beat: u16) -> LoadState {
    let k = key_ix(channel, key);
    match st.open[k] {
        Some(entry) => LoadState {
            open: st.open.update(k, None),
            emitted: st.emitted.push(note_of(entry, key, st.tick, ticks_per_beat)),
            ..st
        },
        None => st,
    }
}

/// One replay step: the delta advances the tick counter and the tempo
/// breakpoints; a note-on with velocity zero means note-off; a note-on over a
/// still-open entry closes it first (old start, old velocity, current tick as
/// end) and then opens anew.
pub open spec fn spec_step(
    ticks_per_beat: u16,
    map: Seq<TempoEvent>,
    st: LoadState,
    ev: TrackEvent,
) -> LoadState {
    let tick = st.tick + ev.delta;
    let adv = spec_advance(map, st.tempo_ix, st.us_per_beat, tick);
    let st1 = LoadState { tick, tempo_ix: adv.0, us_per_beat: adv.1, ..st };
    match ev.kind {
        EventKind::NoteOn { channel, key, velocity } => {
            if velocity > 0 {
                let closed = spec_close(st1, channel, key, ticks_per_beat);
                LoadState {
                    open: closed.open.update(
                        key_ix(channel, key),
                        Some(OpenEntry { start_tick: tick as u64, velocity, us_per_beat: adv.1 }),
                    ),
                    ..closed
                }
            } else {
                spec_close(st1, channel, key, ticks_per_beat)
            }
        },
        EventKind::NoteOff { channel, key } => spec_close(st1, channel, key, ticks_per_beat),
        _ => st1,
    }
}

/// The state after the first `n` events of a track.
pub open spec fn spec_fold_events(
    ticks_per_beat: u16,
    map: Seq<TempoEvent>,
    st: LoadState,
    evs: Seq<TrackEvent>,
    n: int,
) -> LoadState
    decreases n,
{
    if n <= 0 {
        st
    } else {
        spec_step(ticks_per_beat, map, spec_fold_events(ticks_per_beat, map, st, evs, n - 1), evs[n
            - 1])
    }
}

/// An open table with every slot free.
pub open spec fn empty_open() -> Seq<Option<OpenEntry>> {
    Seq::new(OPEN_TABLE_SIZE as nat, |i: int| None)
}

/// Entering a new track: the tick counter resets and the notes still open are
/// dropped, unemitted; tempo state persists.
pub open spec fn track_reset(st: LoadState) -> LoadState {
    LoadState { tick: 0, open: empty_open(), ..st }
}

/// The state after the first `t` tracks.
pub open spec fn spec_fold_tracks(
    ticks_per_beat: u16,
    map: Seq<TempoEvent>,
    st: LoadState,
    tracks: Seq<Seq<TrackEvent>>,
    t: int,
) -> LoadState
    decreases t,
{
    if t <= 0 {
        st
    } else {
        let prev = spec_fold_tracks(ticks_per_beat, map, st, tracks, t - 1);
        spec_fold_events(ticks_per_beat, map, track_reset(prev), tracks[t - 1], tracks[t
            - 1].len() as int)
    }
}

/// The replay's starting state: the tempo in force before any breakpoint is
/// reached is the first breakpoint's value.
pub open spec fn init_state(map: Seq<TempoEvent>) -> LoadState {
    LoadState {
        tick: 0,
        tempo_ix: 0,
        us_per_beat: map[0].us_per_beat,
        open: empty_open(),
        emitted: Seq::empty(),
    }
}

/// The notes a score emits, in emission order.
pub open spec fn spec_loaded_notes(ticks_per_beat: u16, tracks: Seq<Seq<TrackEvent>>) -> Seq<
    MidiNote,
> {
    let map = spec_tempo_map(tracks);
    spec_fold_tracks(ticks_per_beat, map, init_state(map), tracks, tracks.len() as int).emitted
}

/// A note's times stay below `MAX_TIME_US`.
pub open spec fn note_bounded(n: MidiNote) -> bool {
    n.start_time_us < MAX_TIME_US && n.duration_us < MAX_TIME_US
}

pub open spec fn notes_bounded(s: Seq<MidiNote>) -> bool {
    forall|i: int| 0 <= i < s.len() ==> note_bounded(#[trigger] s[i])
}

/// What holds of the replay state throughout: the table has one slot per
/// pair, the tick counter is within a track's range, the tempo is a
/// three-byte quantity, every open entry started at or before the current
/// tick under such a tempo, and every emitted note is bounded.
pub open spec fn state_inv(map: Seq<TempoEvent>, st: LoadState) -> bool {
    &&& st.open.len() == OPEN_TABLE_SIZE
    &&& 0 <= st.tick < MAX_TRACK_TICKS
    &&& 0 <= st.tempo_ix <= map.len()
    &&& st.us_per_beat < 0x100_0000
    &&& forall|k: int|
        0 <= k < st.open.len() ==> match #[trigger] st.open[k] {
            Some(e) => e.start_tick <= st.tick && e.us_per_beat < 0x100_0000,
            None => true,
        }
    &&& notes_bounded(st.emitted)
}

/// A tick span within a track's range converts to a bounded, non-negative
/// microsecond count.
pub proof fn lemma_ticks_to_us_bound(ticks: u64, ticks_per_beat: u16, us_per_beat: u32)
    requires
        ticks < MAX_TRACK_TICKS,
        us_per_beat < 0x100_0000,
        ticks_per_beat >= 1,
    ensures
        0 <= spec_ticks_to_us(ticks, ticks_per_beat, us_per_beat) < MAX_TIME_US,
{
    assert(0 <= ticks * us_per_beat < MAX_TIME_US) by (nonlinear_arith)
        requires
            0 <= ticks < MAX_TRACK_TICKS,
            0 <= us_per_beat < 0x100_0000,
            MAX_TIME_US == 0x10_0000_0000_0000_0000_0000,
            MAX_TRACK_TICKS == 0x1000_0000_0000_0000,
    ;
    assert(0 <= (ticks * us_per_beat) / (ticks_per_beat as int) <= ticks * us_per_beat)
        by (nonlinear_arith)
        requires
            0 <= ticks * us_per_beat,
            ticks_per_beat >= 1,
    ;
}

/// Consuming breakpoints keeps the index within the map and the tempo a
/// three-byte quantity.
pub proof fn lemma_advance_inv(map: Seq<TempoEvent>, ix: int, us_per_beat: u32, tick: int)
    requires
        0 <= ix <= map.len(),
        us_per_beat < 0x100_0000,
        forall|i: int| 0 <= i < map.len() ==> (#[trigger] map[i]).us_per_beat < 0x100_0000,
    ensures
        ({
            let adv = spec_advance(map, ix, us_per_beat, tick);
            ix <= adv.0 <= map.len() && adv.1 < 0x100_0000
        }),
    decreases map.len() - ix,
{
    if 0 <= ix < map.len() && map[ix].tick <= tick {
        lemma_advance_inv(map, ix + 1, map[ix].us_per_beat, tick);
    }
}

/// One step preserves the replay invariant, advances the tick by the event's
/// delta, and only appends to the emitted notes.
pub proof fn lemma_step_inv(
    ticks_per_beat: u16,
    map: Seq<TempoEvent>,
    st: LoadState,
    ev: TrackEvent,
)
    requires
        state_inv(map, st),
        event_wf(ev),
        ticks_per_beat >= 1,
        st.tick + ev.delta < MAX_TRACK_TICKS,
        forall|i: int| 0 <= i < map.len() ==> (#[trigger] map[i]).us_per_beat < 0x100_0000,
    ensures
        ({
            let st2 = spec_step(ticks_per_beat, map, st, ev);
            &&& state_inv(map, st2)
            &&& st2.tick == st.tick + ev.delta
            &&& st.emitted.is_prefix_of(st2.emitted)
        }),
{
    let tick = st.tick + ev.delta;
    let adv = spec_advance(map, st.tempo_ix, st.us_per_beat, tick);
    lemma_advance_inv(map, st.tempo_ix, st.us_per_beat, tick);
    let st1 = LoadState { tick, tempo_ix: adv.0, us_per_beat: adv.1, ..st };
    match ev.kind {
        EventKind::NoteOn { channel, key, velocity } => {
            lemma_close_inv(ticks_per_beat, map, st1, channel, key);
            if velocity > 0 {
                let closed = spec_close(st1, channel, key, ticks_per_beat);
                let st2 = spec_step(ticks_per_beat, map, st, ev);
                assert(st2.open =~= closed.open.update(
                    key_ix(channel, key),
                    Some(OpenEntry { start_tick: tick as u64, velocity, us_per_beat: adv.1 }),
                ));
            }
        },
        EventKind::NoteOff { channel, key } => {
            lemma_close_inv(ticks_per_beat, map, st1, channel, key);
        },
        _ => {},
    }
}

/// Ascending by start time.
pub open spec fn notes_ordered(s: Seq<MidiNote>) -> bool {
    forall|i: int, j: int|
        0 <= i <= j < s.len() ==> s[i].start_time_us <= s[j].start_time_us
}

/// Insertion of a note behind every one that starts no later, so that
/// insertion keeps notes with equal start times in their original order.
pub open spec fn spec_insert_note(s: Seq<MidiNote>, x: MidiNote) -> Seq<MidiNote>
    decreases s.len(),
{
    if s.len() == 0 {
        seq![x]
    } else if s.last().start_time_us <= x.start_time_us {
        s.push(x)
    } else {
        spec_insert_note(s.drop_last(), x).push(s.last())
    }
}

/// Stable insertion sort of the notes by start time.
pub open spec fn spec_sort_notes(s: Seq<MidiNote>) -> Seq<MidiNote>
    decreases s.len(),
{
    if s.len() == 0 {
        Seq::empty()
    } else {
        spec_insert_note(spec_sort_notes(s.drop_last()), s.last())
    }
}

/// The notes of a score, ascending by start time.
pub open spec fn spec_load_notes(ticks_per_beat: u16, tracks: Seq<Seq<TrackEvent>>) -> Seq<
    MidiNote,
> {
    spec_sort_notes(spec_loaded_notes(ticks_per_beat, tracks))
}

/// Inserting behind position `j`, where everything from `j` on starts later
/// and everything before starts no later, is what `spec_insert_note` does.
proof fn lemma_insert_note_split(s: Seq<MidiNote>, x: MidiNote, j: int)
    requires
        0 <= j <= s.len(),
        forall|k: int| j <= k < s.len() ==> (#[trigger] s[k]).start_time_us > x.start_time_us,
        j == 0 || s[j - 1].start_time_us <= x.start_time_us,
    ensures
        spec_insert_note(s, x) == s.insert(j, x),
    decreases s.len(),
{
    if j == s.len() {
        if s.len() == 0 {
            assert(s.insert(j, x) =~= seq![x]);
        } else {
            assert(s.insert(j, x) =~= s.push(x));
        }
    } else {
        lemma_insert_note_split(s.drop_last(), x, j);
        assert(spec_insert_note(s, x) == s.drop_last().insert(j, x).push(s.last()));
        assert(s.drop_last().insert(j, x).push(s.last()) =~= s.insert(j, x));
    }
}

proof fn lemma_insert_note_len(s: Seq<MidiNote>, x: MidiNote)
    ensures
        spec_insert_note(s, x).len() == s.len() + 1,
    decreases s.len(),
{
    if s.len() == 0 {
    } else if s.last().start_time_us <= x.start_time_us {
    } else {
        lemma_insert_note_len(s.drop_last(), x);
    }
}

/// Sorting keeps the number of notes.
pub proof fn lemma_sort_notes_len(s: Seq<MidiNote>)
    ensures
        spec_sort_notes(s).len() == s.len(),
    decreases s.len(),
{
    if s.len() == 0 {
    } else {
        lemma_sort_notes_len(s.drop_last());
        lemma_insert_note_len(spec_sort_notes(s.drop_last()), s.last());
    }
}

/// Sorts the notes by start time, stably.
fn sort_notes(notes: Vec<MidiNote>) -> (r: Vec<MidiNote>)
    ensures
        r@ == spec_sort_notes(notes@),
        notes_ordered(r@),
        forall|i: int| 0 <= i < r@.len() ==> notes@.contains(#[trigger] r@[i]),
{
    let ghost all = notes@;
    let mut v: Vec<MidiNote> = Vec::new();
    let mut i: usize = 0;
    while i < notes.len()
        invariant
            i <= all.len(),
            all == notes@,
            v@ == spec_sort_notes(all.take(i as int)),
            notes_ordered(v@),
            forall|m: int| 0 <= m < v@.len() ==> all.contains(#[trigger] v@[m]),
        decreases all.len() - i,
    {
        let x = notes[i];
        proof {
            assert(all[i as int] == x);
            assert(all.contains(x));
        }
        let mut j: usize = v.len();
        while j > 0 && v[j - 1].start_time_us > x.start_time_us
            invariant
                j <= v@.len(),
                forall|k: int|
                    j <= k < v@.len() ==> (#[trigger] v@[k]).start_time_us > x.start_time_us,
            decreases j,
        {
            j = j - 1;
        }
        proof {
            lemma_insert_note_split(v@, x, j as int);
            assert(all.take(i + 1).drop_last() =~= all.take(i as int));
            assert(all.take(i + 1).last() == all[i as int]);
        }
        let ghost vold = v@;
        v.insert(j, x);
        proof {
            assert(forall|m: int| 0 <= m < j ==> v@[m] == vold[m]);
            assert(forall|m: int| j < m < v@.len() ==> v@[m] == vold[m - 1]);
            assert(v@[j as int] == x);
        }
        i = i + 1;
    }
    proof {
        assert(all.take(all.len() as int) =~= all);
    }
    v
}

/// A fresh open-note table, every slot free.
fn new_open_table() -> (r: Vec<Option<OpenEntry>>)
    ensures
        r@ == empty_open(),
{
    let mut open: Vec<Option<OpenEntry>> = Vec::new();
    let mut z: usize = 0;
    while z < OPEN_TABLE_SIZE
        invariant
            z <= OPEN_TABLE_SIZE,
            open@.len() == z,
            forall|k: int| 0 <= k < z ==> (#[trigger] open@[k]) is None,
        decreases OPEN_TABLE_SIZE - z,
    {
        open.push(None);
        z = z + 1;
    }
    proof {
        assert(open@ =~= empty_open());
    }
    open
}

/// The note an entry closes into at `end_tick`.
fn close_note(entry: OpenEntry, key: u8, end_tick: u64, ticks_per_beat: u16) -> (n: MidiNote)
    requires
        ticks_per_beat >= 1,
        entry.start_tick <= end_tick,
    ensures
        n == note_of(entry, key, end_tick as int, ticks_per_beat),
{
    let start_time_us = ticks_to_us(entry.start_tick, ticks_per_beat, entry.us_per_beat);
    let duration_us = ticks_to_us(end_tick - entry.start_tick, ticks_per_beat, entry.us_per_beat);
    MidiNote { pitch: key, velocity: entry.velocity, start_time_us, duration_us }
}

/// Replays every track of a well-formed score and returns its notes,
/// ascending by start time.
pub fn notes_from_score(score: &MidiScore) -> (r: Vec<MidiNote>)
    requires
        score_wf(score.ticks_per_beat, score.events()),
    ensures
        r@ == spec_load_notes(score.ticks_per_beat, score.events()),
        notes_ordered(r@),
        notes_bounded(r@),
{
    let tpb = score.ticks_per_beat;
    let ghost tracks = score.events();
    let map = tempo_map(score);
    let ghost mapv = map@;
    let mut tempo_ix: usize = 0;
    let mut us_per_beat: u32 = map[0].us_per_beat;
    let mut notes: Vec<MidiNote> = Vec::new();
    let mut open: Vec<Option<OpenEntry>> = new_open_table();
    let mut t: usize = 0;
    proof {
        let st0 = spec_fold_tracks(tpb, mapv, init_state(mapv), tracks, 0);
        assert(st0 == init_state(mapv));
        assert(forall|k: int|
            0 <= k < empty_open().len() ==> (#[trigger] empty_open()[k]) is None);
    }
    while t < score.tracks.len()
        invariant
            t <= score.tracks@.len(),
            tracks == score.events(),
            score_wf(tpb, tracks),
            tpb == score.ticks_per_beat,
            mapv == map@,
            tempo_map_wf(mapv),
            tempo_ix <= map@.len(),
            ({
                let st = spec_fold_tracks(tpb, mapv, init_state(mapv), tracks, t as int);
                &&& state_inv(mapv, st)
                &&& st.tempo_ix == tempo_ix as int
                &&& st.us_per_beat == us_per_beat
                &&& st.emitted == notes@
            }),
        decreases score.tracks@.len() - t,
    {
        let ghost st_t = spec_fold_tracks(tpb, mapv, init_state(mapv), tracks, t as int);
        let track = &score.tracks[t];
        let ghost evs = track@;
        proof {
            assert(tracks[t as int] == evs);
            assert(track_wf(evs));
            assert(evs.take(0) =~= Seq::<TrackEvent>::empty());
            assert(forall|k: int|
                0 <= k < empty_open().len() ==> (#[trigger] empty_open()[k]) is None);
        }
        open = new_open_table();
        let mut tick: u64 = 0;
        let mut i: usize = 0;
        while i < track.len()
            invariant
                i <= evs.len(),
                evs == track@,
                track_wf(evs),
                tracks == score.events(),
                tpb == score.ticks_per_beat,
                tpb >= 1,
                mapv == map@,
                tempo_map_wf(mapv),
                tempo_ix <= map@.len(),
                tick == sum_deltas(evs.take(i as int)),
                ({
                    let st = spec_fold_events(tpb, mapv, track_reset(st_t), evs, i as int);
                    &&& state_inv(mapv, st)
                    &&& st.tick == tick as int
                    &&& st.tempo_ix == tempo_ix as int
                    &&& st.us_per_beat == us_per_beat
                    &&& st.open == open@
                    &&& st.emitted == notes@
                }),
            decreases evs.len() - i,
        {
            let ghost st_cur = spec_fold_events(tpb, mapv, track_reset(st_t), evs, i as int);
            let ev = track[i];
            proof {
                assert(event_wf(evs[i as int]));
                crate::score::lemma_sum_deltas_prefix(evs, i + 1);
                assert(evs.take(i + 1).drop_last() =~= evs.take(i as int));
                assert(sum_deltas(evs.take(i + 1)) == tick + evs[i as int].delta);
                lemma_step_inv(tpb, mapv, st_cur, ev);
            }
            let ghost st_next = spec_step(tpb, mapv, st_cur, ev);
            tick = tick + ev.delta as u64;
            let ghost ix0: int = tempo_ix as int;
            let ghost uspb0: u32 = us_per_beat;
            while tempo_ix < map.len() && map[tempo_ix].tick <= tick
                invariant
                    tempo_ix <= map@.len(),
                    mapv == map@,
                    tempo_map_wf(mapv),
                    us_per_beat < 0x100_0000,
                    spec_advance(mapv, ix0, uspb0, tick as int) == spec_advance(
                        mapv,
                        tempo_ix as int,
                        us_per_beat,
                        tick as int,
                    ),
                decreases map@.len() - tempo_ix,
            {
                us_per_beat = map[tempo_ix].us_per_beat;
                tempo_ix = tempo_ix + 1;
            }
            proof {
                assert(spec_advance(mapv, ix0, uspb0, tick as int) == (
                    tempo_ix as int,
                    us_per_beat,
                ));
            }
            match ev.kind {
                EventKind::NoteOn { channel, key, velocity } => {
                    let idx = channel as usize * 128 + key as usize;
                    if velocity > 0 {
                        match open[idx] {
                            Some(entry) => {
                                notes.push(close_note(entry, key, tick, tpb));
                                open.set(idx, None);
                            },
                            None => {},
                        }
                        open.set(
                            idx,
                            Some(OpenEntry { start_tick: tick, velocity, us_per_beat }),
                        );
                    } else {
                        match open[idx] {
                            Some(entry) => {
                                notes.push(close_note(entry, key, tick, tpb));
                                open.set(idx, None);
                            },
                            None => {},
                        }
                    }
                },
                EventKind::NoteOff { channel, key } => {
                    let idx = channel as usize * 128 + key as usize;
                    match open[idx] {
                        Some(entry) => {
                            notes.push(close_note(entry, key, tick, tpb));
                            open.set(idx, None);
                        },
                        None => {},
                    }
                },
                _ => {},
            }
            proof {
                assert(st_next.open =~= open@);
                assert(st_next.emitted =~= notes@);
            }
            i = i + 1;
        }
        proof {
            assert(evs.take(evs.len() as int) =~= evs);
        }
        t = t + 1;
    }
    proof {
        let st = spec_fold_tracks(tpb, mapv, init_state(mapv), tracks, tracks.len() as int);
        assert(st.emitted == spec_loaded_notes(tpb, tracks));
    }
    let r = sort_notes(notes);
    proof {
        lemma_sort_notes_len(notes@);
    }
    r
}

/// Loads a standard MIDI container: parses the bytes and replays the score.
/// `Ok` exactly when the bytes are a valid container, with the notes
/// ascending by start time; `LoadError::Malformed` otherwise.
pub fn load_midi_bytes(bytes: &Vec<u8>) -> (r: Result<Vec<MidiNote>, LoadError>)
    ensures
        match r {
            Ok(notes) => crate::parser::spec_parse_midi(bytes@) is Some && ({
                let (tpb, tracks) = crate::parser::spec_parse_midi(bytes@)->Some_0;
                &&& notes@ == spec_load_notes(tpb, tracks)
                &&& notes_ordered(notes@)
                &&& notes_bounded(notes@)
            }),
            Err(e) => crate::parser::spec_parse_midi(bytes@) is None && e == LoadError::Malformed,
        },
{
    match crate::parser::parse_midi(bytes) {
        Ok(score) => Ok(notes_from_score(&score)),
        Err(e) => Err(e),
    }
}

/// How many notes are open.
pub open spec fn count_open(open: Seq<Option<OpenEntry>>) -> int
    decreases open.len(),
{
    if open.len() == 0 {
        0
    } else {
        count_open(open.drop_last()) + if open.last() is Some {
            1int
        } else {
            0int
        }
    }
}

/// Whether an event is a true note-on: velocity zero means note-off.
pub open spec fn is_note_on(ev: TrackEvent) -> bool {
    match ev.kind {
        EventKind::NoteOn { velocity, .. } => velocity > 0,
        _ => false,
    }
}

/// How many of the first `n` events are true note-ons.
pub open spec fn count_note_ons(evs: Seq<TrackEvent>, n: int) -> int
    decreases n,
{
    if n <= 0 {
        0
    } else {
        count_note_ons(evs, n - 1) + if is_note_on(evs[n - 1]) {
            1int
        } else {
            0int
        }
    }
}

/// Updating one slot changes the open count by what leaves and what enters.
proof fn lemma_count_open_update(open: Seq<Option<OpenEntry>>, k: int, v: Option<OpenEntry>)
    requires
        0 <= k < open.len(),
    ensures
        count_open(open.update(k, v)) == count_open(open) - (if open[k] is Some {
            1int
        } else {
            0int
        }) + (if v is Some {
            1int
        } else {
            0int
        }),
    decreases open.len(),
{
    let up = open.update(k, v);
    if k == open.len() - 1 {
        assert(up.drop_last() =~= open.drop_last());
    } else {
        lemma_count_open_update(open.drop_last(), k, v);
        assert(up.drop_last() =~= open.drop_last().update(k, v));
        assert(up.last() == open.last());
    }
}

/// One step keeps the balance: emitted notes plus open notes grow by one
/// exactly on a true note-on, never otherwise. A note-on over a still-open
/// entry closes one note and opens one; a note-off (or zero-velocity note-on)
/// moves one open note to the emitted notes or, orphaned, changes nothing.
pub proof fn lemma_step_balance(
    ticks_per_beat: u16,
    map: Seq<TempoEvent>,
    st: LoadState,
    ev: TrackEvent,
)
    requires
        st.open.len() == OPEN_TABLE_SIZE,
        event_wf(ev),
    ensures
        ({
            let st2 = spec_step(ticks_per_beat, map, st, ev);
            &&& st2.open.len() == OPEN_TABLE_SIZE
            &&& st2.emitted.len() + count_open(st2.open) == st.emitted.len() + count_open(st.open)
                + (if is_note_on(ev) {
                1int
            } else {
                0int
            })
        }),
{
    let tick = st.tick + ev.delta;
    let adv = spec_advance(map, st.tempo_ix, st.us_per_beat, tick);
    let st1 = LoadState { tick, tempo_ix: adv.0, us_per_beat: adv.1, ..st };
    match ev.kind {
        EventKind::NoteOn { channel, key, velocity } => {
            let k = key_ix(channel, key);
            match st1.open[k] {
                Some(entry) => {
                    lemma_count_open_update(st1.open, k, None);
                },
                None => {},
            }
            if velocity > 0 {
                let closed = spec_close(st1, channel, key, ticks_per_beat);
                lemma_count_open_update(
                    closed.open,
                    k,
                    Some(OpenEntry { start_tick: tick as u64, velocity, us_per_beat: adv.1 }),
                );
            }
        },
        EventKind::NoteOff { channel, key } => {
            let k = key_ix(channel, key);
            match st1.open[k] {
                Some(entry) => {
                    lemma_count_open_update(st1.open, k, None);
                },
                None => {},
            }
        },
        _ => {},
    }
}

/// Round-trip pairing balance over a track: after any number of events, the
/// emitted notes and the still-open notes together count exactly the true
/// note-ons seen. In particular a stream of matched note-on/note-off pairs,
/// which leaves nothing open, emits exactly one note per pair.
pub proof fn lemma_pairing_balance(
    ticks_per_beat: u16,
    map: Seq<TempoEvent>,
    st: LoadState,
    evs: Seq<TrackEvent>,
    n: int,
)
    requires
        st.open.len() == OPEN_TABLE_SIZE,
        0 <= n <= evs.len(),
        forall|i: int| 0 <= i < evs.len() ==> event_wf(#[trigger] evs[i]),
    ensures
        ({
            let stn = spec_fold_events(ticks_per_beat, map, st, evs, n);
            &&& stn.open.len() == OPEN_TABLE_SIZE
            &&& stn.emitted.len() + count_open(stn.open) == st.emitted.len() + count_open(st.open)
                + count_note_ons(evs, n)
        }),
    decreases n,
{
    if n > 0 {
        lemma_pairing_balance(ticks_per_beat, map, st, evs, n - 1);
        lemma_step_balance(
            ticks_per_beat,
            map,
            spec_fold_events(ticks_per_beat, map, st, evs, n - 1),
            evs[n - 1],
        );
    }
}

/// Whether an event concerns the given (channel, key) pair.
pub open spec fn touches(ev: TrackEvent, channel: u8, key: u8) -> bool {
    match ev.kind {
        EventKind::NoteOn { channel: c, key: k, .. } => c == channel && k == key,
        EventKind::NoteOff { channel: c, key: k } => c == channel && k == key,
        _ => false,
    }
}

/// An event of another pair leaves this pair's slot alone.
proof fn lemma_step_untouched(
    ticks_per_beat: u16,
    map: Seq<TempoEvent>,
    st: LoadState,
    ev: TrackEvent,
    channel: u8,
    key: u8,
)
    requires
        st.open.len() == OPEN_TABLE_SIZE,
        channel < 16,
        key < 128,
        event_wf(ev),
        !touches(ev, channel, key),
    ensures
        ({
            let st2 = spec_step(ticks_per_beat, map, st, ev);
            &&& st2.open.len() == OPEN_TABLE_SIZE
            &&& st2.open[key_ix(channel, key)] == st.open[key_ix(channel, key)]
        }),
{
}

/// A run of events of other pairs leaves this pair's slot alone.
proof fn lemma_fold_untouched(
    ticks_per_beat: u16,
    map: Seq<TempoEvent>,
    st: LoadState,
    evs: Seq<TrackEvent>,
    channel: u8,
    key: u8,
)
    requires
        st.open.len() == OPEN_TABLE_SIZE,
        channel < 16,
        key < 128,
        forall|i: int|
            0 <= i < evs.len() ==> event_wf(#[trigger] evs[i]) && !touches(evs[i], channel, key),
    ensures
        ({
            let st2 = spec_fold_events(ticks_per_beat, map, st, evs, evs.len() as int);
            &&& st2.open.len() == OPEN_TABLE_SIZE
            &&& st2.open[key_ix(channel, key)] == st.open[key_ix(channel, key)]
        }),
{
    lemma_fold_untouched_upto(ticks_per_beat, map, st, evs, evs.len() as int, channel, key);
}

proof fn lemma_fold_untouched_upto(
    ticks_per_beat: u16,
    map: Seq<TempoEvent>,
    st: LoadState,
    evs: Seq<TrackEvent>,
    n: int,
    channel: u8,
    key: u8,
)
    requires
        st.open.len() == OPEN_TABLE_SIZE,
        channel < 16,
        key < 128,
        0 <= n <= evs.len(),
        forall|i: int|
            0 <= i < evs.len() ==> event_wf(#[trigger] evs[i]) && !touches(evs[i], channel, key),
    ensures
        ({
            let st2 = spec_fold_events(ticks_per_beat, map, st, evs, n);
            &&& st2.open.len() == OPEN_TABLE_SIZE
            &&& st2.open[key_ix(channel, key)] == st.open[key_ix(channel, key)]
        }),
    decreases n,
{
    if n > 0 {
        lemma_fold_untouched_upto(ticks_per_beat, map, st, evs, n - 1, channel, key);
        lemma_step_untouched(
            ticks_per_beat,
            map,
            spec_fold_events(ticks_per_beat, map, st, evs, n - 1),
            evs[n - 1],
            channel,
            key,
        );
    }
}

/// Re-trigger policy: two true note-ons for one (channel, key) pair with no
/// intervening event for that pair emit, at the second note-on, exactly one
/// note for the first — it keeps the first note-on's velocity and spans from
/// the first note-on's tick to the second note-on's tick — and the first
/// note-on's entry stays open, untouched, until then.
pub proof fn lemma_retrigger(
    ticks_per_beat: u16,
    map: Seq<TempoEvent>,
    st0: LoadState,
    first: TrackEvent,
    mid: Seq<TrackEvent>,
    second: TrackEvent,
    channel: u8,
    key: u8,
    v1: u8,
    v2: u8,
)
    requires
        st0.open.len() == OPEN_TABLE_SIZE,
        channel < 16,
        key < 128,
        v1 > 0,
        v2 > 0,
        first.kind == (EventKind::NoteOn { channel, key, velocity: v1 }),
        second.kind == (EventKind::NoteOn { channel, key, velocity: v2 }),
        forall|i: int|
            0 <= i < mid.len() ==> event_wf(#[trigger] mid[i]) && !touches(mid[i], channel, key),
    ensures
        ({
            let st1 = spec_step(ticks_per_beat, map, st0, first);
            let st2 = spec_fold_events(ticks_per_beat, map, st1, mid, mid.len() as int);
            let st3 = spec_step(ticks_per_beat, map, st2, second);
            let entry = st1.open[key_ix(channel, key)];
            &&& entry is Some
            &&& entry->Some_0.velocity == v1
            &&& entry->Some_0.start_tick == st1.tick as u64
            &&& st2.open[key_ix(channel, key)] == entry
            &&& st3.emitted == st2.emitted.push(
                note_of(entry->Some_0, key, st3.tick, ticks_per_beat),
            )
        }),
{
    let st1 = spec_step(ticks_per_beat, map, st0, first);
    lemma_fold_untouched(ticks_per_beat, map, st1, mid, channel, key);
}

/// The tempo bookkeeping that replay maintains: every breakpoint consumed so
/// far lies at or before the current tick, the tempo in force is the last
/// consumed breakpoint's value (or the first breakpoint's before any is
/// reached), and every open note carries the tempo that was active at its
/// start tick.
pub open spec fn tempo_sync(map: Seq<TempoEvent>, st: LoadState) -> bool {
    &&& 0 <= st.tempo_ix <= map.len()
    &&& forall|j: int| 0 <= j < st.tempo_ix ==> (#[trigger] map[j]).tick <= st.tick
    &&& st.us_per_beat == if st.tempo_ix == 0 {
        map[0].us_per_beat
    } else {
        map[st.tempo_ix - 1].us_per_beat
    }
    &&& forall|k: int|
        0 <= k < st.open.len() ==> match #[trigger] st.open[k] {
            Some(e) => e.us_per_beat == crate::tempo::tempo_at(map, e.start_tick as int),
            None => true,
        }
}

/// Consuming breakpoints from a synchronized state leaves exactly those at
/// or before the new tick consumed.
proof fn lemma_advance_sync(map: Seq<TempoEvent>, ix: int, us_per_beat: u32, tick: int)
    requires
        crate::tempo::tempos_ordered(map),
        map.len() >= 1,
        0 <= ix <= map.len(),
        forall|j: int| 0 <= j < ix ==> (#[trigger] map[j]).tick <= tick,
        us_per_beat == if ix == 0 {
            map[0].us_per_beat
        } else {
            map[ix - 1].us_per_beat
        },
    ensures
        ({
            let adv = spec_advance(map, ix, us_per_beat, tick);
            &&& 0 <= adv.0 <= map.len()
            &&& forall|j: int| 0 <= j < adv.0 ==> (#[trigger] map[j]).tick <= tick
            &&& adv.0 < map.len() ==> map[adv.0].tick > tick
            &&& adv.1 == if adv.0 == 0 {
                map[0].us_per_beat
            } else {
                map[adv.0 - 1].us_per_beat
            }
        }),
    decreases map.len() - ix,
{
    if 0 <= ix < map.len() && map[ix].tick <= tick {
        lemma_advance_sync(map, ix + 1, map[ix].us_per_beat, tick);
    }
}

/// A fully consumed prefix pins the tempo in force to `tempo_at`.
proof fn lemma_sync_is_tempo_at(map: Seq<TempoEvent>, ix: int, tick: int)
    requires
        crate::tempo::tempos_ordered(map),
        map.len() >= 1,
        0 <= ix <= map.len(),
        forall|j: int| 0 <= j < ix ==> (#[trigger] map[j]).tick <= tick,
        ix < map.len() ==> map[ix].tick > tick,
    ensures
        (if ix == 0 {
            map[0].us_per_beat
        } else {
            map[ix - 1].us_per_beat
        }) == crate::tempo::tempo_at(map, tick),
    decreases map.len(),
{
    if map.len() == 1 {
    } else if map.last().tick <= tick {
        assert(ix == map.len()) by {
            if ix < map.len() {
                assert(map[ix].tick <= map.last().tick);
            }
        }
    } else {
        assert(ix <= map.len() - 1) by {
            if ix == map.len() {
                assert(map[map.len() - 1].tick <= tick);
            }
        }
        lemma_sync_is_tempo_at(map.drop_last(), ix, tick);
    }
}

/// One step keeps the tempo bookkeeping synchronized.
proof fn lemma_step_tempo_sync(
    ticks_per_beat: u16,
    map: Seq<TempoEvent>,
    st: LoadState,
    ev: TrackEvent,
)
    requires
        crate::tempo::tempos_ordered(map),
        map.len() >= 1,
        tempo_sync(map, st),
        st.open.len() == OPEN_TABLE_SIZE,
        event_wf(ev),
        0 <= st.tick,
        st.tick + ev.delta < MAX_TRACK_TICKS,
    ensures
        ({
            let st2 = spec_step(ticks_per_beat, map, st, ev);
            &&& tempo_sync(map, st2)
            &&& st2.open.len() == OPEN_TABLE_SIZE
            &&& st2.us_per_beat == crate::tempo::tempo_at(map, st2.tick)
        }),
{
    let tick = st.tick + ev.delta;
    let adv = spec_advance(map, st.tempo_ix, st.us_per_beat, tick);
    lemma_advance_sync(map, st.tempo_ix, st.us_per_beat, tick);
    lemma_sync_is_tempo_at(map, adv.0, tick);
    let st2 = spec_step(ticks_per_beat, map, st, ev);
    assert(adv.1 == crate::tempo::tempo_at(map, tick));
    assert((tick as u64) as int == tick);
    assert forall|k: int| 0 <= k < st2.open.len() implies match #[trigger] st2.open[k] {
        Some(e) => e.us_per_beat == crate::tempo::tempo_at(map, e.start_tick as int),
        None => true,
    } by {
        match ev.kind {
            EventKind::NoteOn { channel, key, velocity } => {
                let kix = key_ix(channel, key);
                if velocity > 0 && k == kix {
                    assert(st2.open[k] == Some(
                        OpenEntry { start_tick: tick as u64, velocity, us_per_beat: adv.1 },
                    ));
                } else {
                    assert(st2.open[k] == st.open[k] || st2.open[k] is None);
                }
            },
            EventKind::NoteOff { channel, key } => {
                assert(st2.open[k] == st.open[k] || st2.open[k] is None);
            },
            _ => {},
        }
    }
}

/// Tempo tracking over a track replayed from the start: whatever prefix of
/// the events has run, every note still open carries the tempo that was
/// active at its start tick — the last breakpoint at or before it — and the
/// tempo in force matches the current tick. A note that starts at a
/// breakpoint's tick is therefore timed under that breakpoint's value, and
/// under it alone, for its whole span.
pub proof fn lemma_tempo_tracking(
    ticks_per_beat: u16,
    map: Seq<TempoEvent>,
    evs: Seq<TrackEvent>,
    n: int,
)
    requires
        crate::tempo::tempos_ordered(map),
        map.len() >= 1,
        0 <= n <= evs.len(),
        track_wf(evs),
    ensures
        ({
            let st = spec_fold_events(ticks_per_beat, map, init_state(map), evs, n);
            &&& tempo_sync(map, st)
            &&& st.open.len() == OPEN_TABLE_SIZE
            &&& forall|k: int|
                0 <= k < st.open.len() ==> match #[trigger] st.open[k] {
                    Some(e) => e.us_per_beat == crate::tempo::tempo_at(map, e.start_tick as int),
                    None => true,
                }
            &&& n >= 1 ==> st.us_per_beat == crate::tempo::tempo_at(map, st.tick)
        }),
    decreases n,
{
    if n == 0 {
    } else {
        lemma_tempo_tracking(ticks_per_beat, map, evs, n - 1);
        let prev = spec_fold_events(ticks_per_beat, map, init_state(map), evs, n - 1);
        lemma_fold_tick(ticks_per_beat, map, init_state(map), evs, n - 1);
        crate::score::lemma_sum_deltas_prefix(evs, n);
        crate::score::lemma_sum_deltas_nonneg(evs.take(n - 1));
        assert(evs.take(n).drop_last() =~= evs.take(n - 1));
        assert(sum_deltas(evs.take(n)) == sum_deltas(evs.take(n - 1)) + evs[n - 1].delta);
        lemma_step_tempo_sync(ticks_per_beat, map, prev, evs[n - 1]);
    }
}

/// The fold's tick counter is the delta total of the events folded.
proof fn lemma_fold_tick(
    ticks_per_beat: u16,
    map: Seq<TempoEvent>,
    st: LoadState,
    evs: Seq<TrackEvent>,
    n: int,
)
    requires
        0 <= n <= evs.len(),
    ensures
        spec_fold_events(ticks_per_beat, map, st, evs, n).tick == st.tick + sum_deltas(
            evs.take(n),
        ),
    decreases n,
{
    if n == 0 {
        assert(evs.take(0) =~= Seq::<TrackEvent>::empty());
    } else {
        lemma_fold_tick(ticks_per_beat, map, st, evs, n - 1);
        assert(evs.take(n).drop_last() =~= evs.take(n - 1));
        assert(sum_deltas(evs.take(n)) == sum_deltas(evs.take(n - 1)) + evs[n - 1].delta);
    }
}

/// Closing preserves the replay invariant and only appends one bounded note.
proof fn lemma_close_inv(
    ticks_per_beat: u16,
    map: Seq<TempoEvent>,
    st: LoadState,
    channel: u8,
    key: u8,
)
    requires
        state_inv(map, st),
        channel < 16,
        key < 128,
        ticks_per_beat >= 1,
    ensures
        ({
            let st2 = spec_close(st, channel, key, ticks_per_beat);
            &&& state_inv(map, st2)
            &&& st2.tick == st.tick
            &&& st2.tempo_ix == st.tempo_ix
            &&& st2.us_per_beat == st.us_per_beat
            &&& st.emitted.is_prefix_of(st2.emitted)
        }),
{
    let k = key_ix(channel, key);
    match st.open[k] {
        Some(entry) => {
            lemma_ticks_to_us_bound(entry.start_tick, ticks_per_beat, entry.us_per_beat);
            lemma_ticks_to_us_bound(
                (st.tick - entry.start_tick) as u64,
                ticks_per_beat,
                entry.us_per_beat,
            );
            let st2 = spec_close(st, channel, key, ticks_per_beat);
            assert(notes_bounded(st2.emitted)) by {
                assert(forall|i: int|
                    0 <= i < st.emitted.len() ==> st2.emitted[i] == st.emitted[i]);
            }
        },
        None => {},
    }
}

} // verus!
