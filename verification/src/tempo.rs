//! The tempo map: (cumulative-tick, microseconds-per-beat) breakpoints
//! collected from every track, kept non-decreasing in tick, with the standard
//! 120 BPM default when a stream declares no tempo at all.

use vstd::prelude::*;
use crate::score::{EventKind, TrackEvent, sum_deltas, track_wf, tracks_seq, score_wf};
use crate::score::MidiScore;
use crate::note::MAX_TRACK_TICKS;

verus! {

/// The default tempo, 500,000 microseconds per beat (120 BPM).
pub const DEFAULT_US_PER_BEAT: u32 = 500_000;

/// A tempo breakpoint: from cumulative tick `tick` on, playback runs at
/// `us_per_beat` microseconds per beat.
#[derive(Clone, Copy, Debug, PartialEq, Eq, Structural)]
pub struct TempoEvent {
    pub tick: u64,
    pub us_per_beat: u32,
}

/// The breakpoints of the first `n` events of one track, each at the
/// cumulative tick of its tempo event.
pub open spec fn spec_track_tempos(evs: Seq<TrackEvent>, n: int) -> Seq<TempoEvent>
    decreases n,
{
    if n <= 0 {
        Seq::empty()
    } else {
        let pre = spec_track_tempos(evs, n - 1);
        match evs[n - 1].kind {
            EventKind::Tempo { us_per_beat } => pre.push(
                TempoEvent { tick: sum_deltas(evs.take(n)) as u64, us_per_beat },
            ),
            _ => pre,
        }
    }
}

/// The breakpoints of the first `t` tracks, in track order.
pub open spec fn spec_all_tempos(tracks: Seq<Seq<TrackEvent>>, t: int) -> Seq<TempoEvent>
    decreases t,
{
    if t <= 0 {
        Seq::empty()
    } else {
        spec_all_tempos(tracks, t - 1) + spec_track_tempos(tracks[t - 1], tracks[t - 1].len() as int)
    }
}

/// Insertion of a breakpoint behind every one with a tick no larger than its
/// own, so that insertion keeps equal ticks in their original order.
pub open spec fn spec_insert_tempo(s: Seq<TempoEvent>, x: TempoEvent) -> Seq<TempoEvent>
    decreases s.len(),
{
    if s.len() == 0 {
        seq![x]
    } else if s.last().tick <= x.tick {
        s.push(x)
    } else {
        spec_insert_tempo(s.drop_last(), x).push(s.last())
    }
}

/// Stable insertion sort of the breakpoints by tick.
pub open spec fn spec_sort_tempos(s: Seq<TempoEvent>) -> Seq<TempoEvent>
    decreases s.len(),
{
    if s.len() == 0 {
        Seq::empty()
    } else {
        spec_insert_tempo(spec_sort_tempos(s.drop_last()), s.last())
    }
}

/// The tempo map of a score: every track's breakpoints, ordered by tick, or
/// the single default breakpoint when there are none.
pub open spec fn spec_tempo_map(tracks: Seq<Seq<TrackEvent>>) -> Seq<TempoEvent> {
    let all = spec_all_tempos(tracks, tracks.len() as int);
    if all.len() == 0 {
        seq![TempoEvent { tick: 0, us_per_beat: DEFAULT_US_PER_BEAT }]
    } else {
        spec_sort_tempos(all)
    }
}

/// The tempo active at `tick`: the value of the last breakpoint at or before
/// it, or the first breakpoint's value when none has been reached yet.
pub open spec fn tempo_at(s: Seq<TempoEvent>, tick: int) -> u32
    recommends
        s.len() >= 1,
    decreases s.len(),
{
    if s.len() <= 1 {
        s[0].us_per_beat
    } else if s.last().tick <= tick {
        s.last().us_per_beat
    } else {
        tempo_at(s.drop_last(), tick)
    }
}

/// Non-decreasing in tick.
pub open spec fn tempos_ordered(s: Seq<TempoEvent>) -> bool {
    forall|i: int, j: int| 0 <= i <= j < s.len() ==> s[i].tick <= s[j].tick
}

/// What the loader needs of a tempo map: at least one breakpoint, ordered by
/// tick, every tempo a three-byte quantity and every tick within a track's
/// range.
pub open spec fn tempo_map_wf(s: Seq<TempoEvent>) -> bool {
    &&& s.len() >= 1
    &&& tempos_ordered(s)
    &&& forall|i: int| 0 <= i < s.len() ==> (#[trigger] s[i]).us_per_beat < 0x100_0000
    &&& forall|i: int| 0 <= i < s.len() ==> (#[trigger] s[i]).tick < MAX_TRACK_TICKS
}

/// Inserting behind position `j`, where everything from `j` on has a larger
/// tick and everything before has one no larger, is what `spec_insert_tempo`
/// does.
proof fn lemma_insert_tempo_split(s: Seq<TempoEvent>, x: TempoEvent, j: int)
    requires
        0 <= j <= s.len(),
        forall|k: int| j <= k < s.len() ==> (#[trigger] s[k]).tick > x.tick,
        j == 0 || s[j - 1].tick <= x.tick,
    ensures
        spec_insert_tempo(s, x) == s.insert(j, x),
    decreases s.len(),
{
    if j == s.len() {
        if s.len() == 0 {
            assert(s.insert(j, x) =~= seq![x]);
        } else {
            assert(s.insert(j, x) =~= s.push(x));
        }
    } else {
        lemma_insert_tempo_split(s.drop_last(), x, j);
        assert(spec_insert_tempo(s, x) == s.drop_last().insert(j, x).push(s.last()));
        assert(s.drop_last().insert(j, x).push(s.last()) =~= s.insert(j, x));
    }
}

/// Collects the tempo breakpoints of every track, in track order, each at the
/// cumulative tick of its tempo event within its own track.
fn collect_tempos(score: &MidiScore) -> (r: Vec<TempoEvent>)
    requires
        score_wf(score.ticks_per_beat, score.events()),
    ensures
        r@ == spec_all_tempos(score.events(), score.events().len() as int),
        forall|i: int|
            0 <= i < r@.len() ==> (#[trigger] r@[i]).us_per_beat < 0x100_0000 && r@[i].tick
                < MAX_TRACK_TICKS,
{
    let ghost tracks = score.events();
    let mut acc: Vec<TempoEvent> = Vec::new();
    let mut t: usize = 0;
    while t < score.tracks.len()
        invariant
            t <= score.tracks@.len(),
            tracks == score.events(),
            score_wf(score.ticks_per_beat, tracks),
            acc@ == spec_all_tempos(tracks, t as int),
            forall|i: int|
                0 <= i < acc@.len() ==> (#[trigger] acc@[i]).us_per_beat < 0x100_0000
                    && acc@[i].tick < MAX_TRACK_TICKS,
        decreases score.tracks@.len() - t,
    {
        let track = &score.tracks[t];
        let ghost evs = track@;
        proof {
            assert(tracks[t as int] == evs);
            assert(track_wf(evs));
        }
        let mut tick: u64 = 0;
        let mut i: usize = 0;
        while i < track.len()
            invariant
                i <= evs.len(),
                evs == track@,
                track_wf(evs),
                t < score.tracks@.len(),
                tracks == score.events(),
                tracks[t as int] == evs,
                tick == sum_deltas(evs.take(i as int)),
                acc@ == spec_all_tempos(tracks, t as int) + spec_track_tempos(evs, i as int),
                forall|k: int|
                    0 <= k < acc@.len() ==> (#[trigger] acc@[k]).us_per_beat < 0x100_0000
                        && acc@[k].tick < MAX_TRACK_TICKS,
            decreases evs.len() - i,
        {
            proof {
                crate::score::lemma_sum_deltas_prefix(evs, i + 1);
                assert(evs.take(i + 1).drop_last() =~= evs.take(i as int));
                assert(sum_deltas(evs.take(i + 1)) == tick + evs[i as int].delta);
            }
            let ev = track[i];
            tick = tick + ev.delta as u64;
            match ev.kind {
                EventKind::Tempo { us_per_beat } => {
                    proof {
                        assert(spec_all_tempos(tracks, t as int) + spec_track_tempos(
                            evs,
                            i as int,
                        ).push(TempoEvent { tick, us_per_beat }) =~= (spec_all_tempos(
                            tracks,
                            t as int,
                        ) + spec_track_tempos(evs, i as int)).push(TempoEvent { tick, us_per_beat }));
                    }
                    acc.push(TempoEvent { tick, us_per_beat });
                },
                _ => {},
            }
            i = i + 1;
        }
        proof {
            assert(evs.take(evs.len() as int) =~= evs);
        }
        t = t + 1;
    }
    acc
}

/// Sorts the breakpoints by tick, stably.
fn sort_tempos(tempos: Vec<TempoEvent>) -> (r: Vec<TempoEvent>)
    ensures
        r@ == spec_sort_tempos(tempos@),
        tempos_ordered(r@),
        forall|i: int| 0 <= i < r@.len() ==> tempos@.contains(#[trigger] r@[i]),
{
    let ghost all = tempos@;
    let mut v: Vec<TempoEvent> = Vec::new();
    let mut i: usize = 0;
    while i < tempos.len()
        invariant
            i <= all.len(),
            all == tempos@,
            v@ == spec_sort_tempos(all.take(i as int)),
            tempos_ordered(v@),
            forall|m: int| 0 <= m < v@.len() ==> all.contains(#[trigger] v@[m]),
        decreases all.len() - i,
    {
        let x = tempos[i];
        proof {
            assert(all[i as int] == x);
            assert(all.contains(x));
        }
        let mut j: usize = v.len();
        while j > 0 && v[j - 1].tick > x.tick
            invariant
                j <= v@.len(),
                forall|k: int| j <= k < v@.len() ==> (#[trigger] v@[k]).tick > x.tick,
            decreases j,
        {
            j = j - 1;
        }
        proof {
            lemma_insert_tempo_split(v@, x, j as int);
            assert(all.take(i + 1).drop_last() =~= all.take(i as int));
            assert(all.take(i + 1).last() == all[i as int]);
        }
        let ghost vold = v@;
        v.insert(j, x);
        proof {
            assert(forall|m: int| 0 <= m < j ==> v@[m] == vold[m]);
            assert(forall|m: int| j < m < v@.len() ==> v@[m] == vold[m - 1]);
            assert(v@[j as int] == x);
        }
        i = i + 1;
    }
    proof {
        assert(all.take(all.len() as int) =~= all);
    }
    v
}

/// The tempo map of a score: every track's breakpoints ordered by tick, or
/// the single 120 BPM default when the stream declares none.
pub fn tempo_map(score: &MidiScore) -> (r: Vec<TempoEvent>)
    requires
        score_wf(score.ticks_per_beat, score.events()),
    ensures
        r@ == spec_tempo_map(score.events()),
        tempo_map_wf(r@),
{
    let all = collect_tempos(score);
    if all.len() == 0 {
        let r = vec![TempoEvent { tick: 0, us_per_beat: DEFAULT_US_PER_BEAT }];
        proof {
            assert(r@ =~= seq![TempoEvent { tick: 0, us_per_beat: DEFAULT_US_PER_BEAT }]);
        }
        r
    } else {
        let ghost allv = all@;
        let r = sort_tempos(all);
        proof {
            lemma_sort_tempos_len(allv);
        }
        r
    }
}

/// Sorting keeps the number of breakpoints.
proof fn lemma_insert_tempo_len(s: Seq<TempoEvent>, x: TempoEvent)
    ensures
        spec_insert_tempo(s, x).len() == s.len() + 1,
    decreases s.len(),
{
    if s.len() == 0 {
    } else if s.last().tick <= x.tick {
    } else {
        lemma_insert_tempo_len(s.drop_last(), x);
    }
}

proof fn lemma_sort_tempos_len(s: Seq<TempoEvent>)
    ensures
        spec_sort_tempos(s).len() == s.len(),
    decreases s.len(),
{
    if s.len() == 0 {
    } else {
        lemma_sort_tempos_len(s.drop_last());
        lemma_insert_tempo_len(spec_sort_tempos(s.drop_last()), s.last());
    }
}

} // verus!
