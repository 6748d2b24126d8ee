//! The per-frame timeline projection: out of the note list, the current
//! playback time, the viewport and the fall duration, the visible notes
//! become colored rectangles and triangle-pair vertex data.
//!
//! All screen coordinates are integer milli-pixels (one thousandth of a
//! pixel). The screen origin is the top-left corner with y growing downward;
//! the fall model computes distances above the present line (y = 0 at the
//! bottom) and flips them at the end.

use vstd::prelude::*;
use crate::note::{MidiNote, MAX_TIME_US};
use crate::loader::{notes_bounded, note_bounded};

verus! {

/// A note rectangle's width, in pixels.
pub const NOTE_WIDTH_PX: u32 = 20;

/// A note rectangle's width, in milli-pixels.
pub const NOTE_WIDTH_MPX: i64 = 20_000;

/// An sRGB color, one byte per channel; the renderer divides by 255.
#[derive(Clone, Copy, Debug, PartialEq, Eq, Structural)]
pub struct Color {
    pub r: u8,
    pub g: u8,
    pub b: u8,
}

/// Everything the projection reads besides the notes and the clock. The host
/// may change any of it between two frames; no state carries over.
#[derive(Clone, Copy, Debug, PartialEq, Eq, Structural)]
pub struct FrameConfig {
    /// How long a note falls from the top of the viewport to the present
    /// line, in microseconds. Must be positive; the caller clamps it to a
    /// sane range before calling.
    pub fall_duration_us: u32,
    pub viewport_width: u32,
    pub viewport_height: u32,
    /// Pitches below this take the left-hand color, the rest the right-hand
    /// color.
    pub hand_split_pitch: u8,
    pub color_left_hand: Color,
    pub color_right_hand: Color,
}

/// A colored note rectangle in screen space: `(x, y)` is the top-left corner
/// in milli-pixels and `y + height` the bottom edge, where the note is
/// struck.
#[derive(Clone, Copy, Debug, PartialEq, Eq, Structural)]
pub struct Note {
    pub x: i64,
    pub y: i128,
    pub width: i64,
    pub height: i128,
    pub color: Color,
}

/// One vertex of a note rectangle: a screen position in milli-pixels and a
/// color.
#[derive(Clone, Copy, Debug, PartialEq, Eq, Structural)]
pub struct Vertex {
    pub x: i128,
    pub y: i128,
    pub color: Color,
}

/// A time span scaled to milli-pixels: `delta_us` microseconds cover
/// `delta_us * height / fall_us` pixels, rounded toward zero.
pub open spec fn spec_scaled_mpx(delta_us: int, height: int, fall_us: int) -> int {
    if delta_us >= 0 {
        (delta_us * height * 1000) / fall_us
    } else {
        -(((-delta_us) * height * 1000) / fall_us)
    }
}

/// Whether a note is inside the falling window: it is skipped when it has
/// fully scrolled past the present line (its end lies before now) or has not
/// yet entered at the top (its start lies more than one fall duration ahead).
pub open spec fn note_visible(n: MidiNote, now_us: u64, fall_us: u32) -> bool {
    &&& n.start_time_us + n.duration_us >= now_us
    &&& n.start_time_us - now_us <= fall_us
}

/// The rectangle of a visible note. Horizontally, pitch 48 anchors at the
/// quarter-width mark and each pitch is one note width further right.
/// Vertically, the note's distance above the present line is its start time
/// minus now, scaled; its height is its duration, scaled; both are then
/// flipped into screen space.
pub open spec fn rect_of(n: MidiNote, now_us: u64, cfg: FrameConfig) -> Note {
    let h = cfg.viewport_height as int;
    let fall = cfg.fall_duration_us as int;
    let y_hit = spec_scaled_mpx(n.start_time_us - now_us, h, fall);
    let height = spec_scaled_mpx(n.duration_us as int, h, fall);
    let y_top = y_hit + height;
    Note {
        x: ((n.pitch - 48) * (NOTE_WIDTH_MPX as int) + cfg.viewport_width * 250) as i64,
        y: (h * 1000 - y_top) as i128,
        width: NOTE_WIDTH_MPX,
        height: height as i128,
        color: if n.pitch < cfg.hand_split_pitch {
            cfg.color_left_hand
        } else {
            cfg.color_right_hand
        },
    }
}

/// The rectangles of the visible notes, in note order.
pub open spec fn spec_visible_rects(notes: Seq<MidiNote>, now_us: u64, cfg: FrameConfig) -> Seq<
    Note,
>
    decreases notes.len(),
{
    if notes.len() == 0 {
        Seq::empty()
    } else {
        let pre = spec_visible_rects(notes.drop_last(), now_us, cfg);
        if note_visible(notes.last(), now_us, cfg.fall_duration_us) {
            pre.push(rect_of(notes.last(), now_us, cfg))
        } else {
            pre
        }
    }
}

/// The six vertices of a rectangle, two triangles, in the order the renderer
/// expects: bottom edge first (where the note is struck), then up to the top.
pub open spec fn vertices_of_rect(r: Note) -> Seq<Vertex> {
    let x0 = r.x as int;
    let x1 = r.x + r.width;
    let y_top = r.y as int;
    let y_hit = r.y + r.height;
    seq![
        Vertex { x: x0 as i128, y: y_hit as i128, color: r.color },
        Vertex { x: x1 as i128, y: y_hit as i128, color: r.color },
        Vertex { x: x0 as i128, y: y_top as i128, color: r.color },
        Vertex { x: x1 as i128, y: y_hit as i128, color: r.color },
        Vertex { x: x1 as i128, y: y_top as i128, color: r.color },
        Vertex { x: x0 as i128, y: y_top as i128, color: r.color },
    ]
}

/// The vertex list of a frame: six vertices per visible rectangle.
pub open spec fn spec_frame_vertices(rects: Seq<Note>) -> Seq<Vertex>
    decreases rects.len(),
{
    if rects.len() == 0 {
        Seq::empty()
    } else {
        spec_frame_vertices(rects.drop_last()) + vertices_of_rect(rects.last())
    }
}

/// A rectangle the vertex builder can take: corner sums stay within their
/// integer types.
pub open spec fn rect_bounded(r: Note) -> bool {
    &&& -0x1_0000_0000_0000 <= r.x <= 0x1_0000_0000_0000
    &&& 0 <= r.width <= 0x10_0000
    &&& 0 <= r.height
    &&& -0x4000_0000_0000_0000_0000_0000_0000_0000 <= r.y
    &&& r.y + r.height < 0x8000_0000_0000_0000_0000_0000_0000_0000
}

pub open spec fn rects_bounded(s: Seq<Note>) -> bool {
    forall|i: int| 0 <= i < s.len() ==> rect_bounded(#[trigger] s[i])
}

/// Hand split: with the split at middle C (pitch 60), any note of pitch 59 or
/// below takes the left-hand color and any note of pitch 60 or above the
/// right-hand color, whatever its velocity, start or duration.
pub proof fn lemma_hand_split(n: MidiNote, now_us: u64, cfg: FrameConfig)
    requires
        cfg.hand_split_pitch == 60,
    ensures
        n.pitch < 60 ==> rect_of(n, now_us, cfg).color == cfg.color_left_hand,
        n.pitch >= 60 ==> rect_of(n, now_us, cfg).color == cfg.color_right_hand,
{
}

/// A non-negative time span scaled to milli-pixels.
fn scale_to_mpx(delta_us: u128, height: u32, fall_us: u32) -> (r: u128)
    requires
        fall_us >= 1,
        delta_us < MAX_TIME_US,
    ensures
        r == (delta_us * height * 1000) / (fall_us as int),
        r < 0x4000_0000_0000_0000_0000_0000_0000_0000,
{
    proof {
        assert(0 <= delta_us * height * 1000 < 0x4000_0000_0000_0000_0000_0000_0000_0000)
            by (nonlinear_arith)
            requires
                0 <= delta_us < MAX_TIME_US,
                0 <= height < 0x1_0000_0000,
                MAX_TIME_US == 0x10_0000_0000_0000_0000_0000,
        ;
        assert(0 <= (delta_us * height * 1000) / (fall_us as int) <= delta_us * height * 1000)
            by (nonlinear_arith)
            requires
                0 <= delta_us * height * 1000,
                fall_us >= 1,
        ;
    }
    (delta_us * (height as u128) * 1000) / (fall_us as u128)
}

/// The rectangles of the notes inside the falling window, in note order: a
/// note is excluded exactly when it has fully scrolled past the present line
/// or has not yet entered the viewport.
pub fn visible_rects(notes: &Vec<MidiNote>, now_us: u64, cfg: &FrameConfig) -> (r: Vec<Note>)
    requires
        cfg.fall_duration_us >= 1,
        notes_bounded(notes@),
    ensures
        r@ == spec_visible_rects(notes@, now_us, *cfg),
        rects_bounded(r@),
{
    let ghost all = notes@;
    let mut rects: Vec<Note> = Vec::new();
    let mut i: usize = 0;
    while i < notes.len()
        invariant
            i <= all.len(),
            all == notes@,
            notes_bounded(all),
            cfg.fall_duration_us >= 1,
            rects@ == spec_visible_rects(all.take(i as int), now_us, *cfg),
            rects_bounded(rects@),
        decreases all.len() - i,
    {
        proof {
            assert(all.take(i + 1).drop_last() =~= all.take(i as int));
            assert(all.take(i + 1).last() == all[i as int]);
            assert(note_bounded(all[i as int]));
        }
        let n = notes[i];
        let fall = cfg.fall_duration_us;
        let visible = n.start_time_us + n.duration_us >= now_us as u128 && n.start_time_us
            <= now_us as u128 + fall as u128;
        if visible {
            let h = cfg.viewport_height;
            let height_mpx = scale_to_mpx(n.duration_us, h, fall) as i128;
            let y_hit_mpx: i128 = if n.start_time_us >= now_us as u128 {
                scale_to_mpx(n.start_time_us - now_us as u128, h, fall) as i128
            } else {
                -(scale_to_mpx(now_us as u128 - n.start_time_us, h, fall) as i128)
            };
            proof {
                if n.start_time_us >= now_us as u128 {
                    assert(n.start_time_us - now_us <= fall);
                    assert((n.start_time_us - now_us) * h * 1000 <= fall * h * 1000)
                        by (nonlinear_arith)
                        requires
                            0 <= n.start_time_us - now_us <= fall,
                            0 <= h,
                    ;
                    assert(((n.start_time_us - now_us) * h * 1000) / (fall as int) <= (fall * h
                        * 1000) / (fall as int)) by (nonlinear_arith)
                        requires
                            0 <= (n.start_time_us - now_us) * h * 1000 <= fall * h * 1000,
                            fall >= 1,
                    ;
                    assert((fall * h * 1000) / (fall as int) == h * 1000) by (nonlinear_arith)
                        requires
                            fall >= 1,
                    ;
                }
            }
            let y_top_mpx = y_hit_mpx + height_mpx;
            let x: i64 = (n.pitch as i64 - 48) * NOTE_WIDTH_MPX + (cfg.viewport_width as i64)
                * 250;
            let y: i128 = (h as i128) * 1000 - y_top_mpx;
            let color = if n.pitch < cfg.hand_split_pitch {
                cfg.color_left_hand
            } else {
                cfg.color_right_hand
            };
            let rect = Note { x, y, width: NOTE_WIDTH_MPX, height: height_mpx, color };
            proof {
                assert(rect == rect_of(all[i as int], now_us, *cfg));
            }
            rects.push(rect);
        }
        i = i + 1;
    }
    proof {
        assert(all.take(all.len() as int) =~= all);
    }
    rects
}

/// The vertex list of a frame: six vertices per rectangle, in rectangle
/// order.
pub fn frame_vertices(rects: &Vec<Note>) -> (v: Vec<Vertex>)
    requires
        rects_bounded(rects@),
    ensures
        v@ == spec_frame_vertices(rects@),
        v@.len() == 6 * rects@.len(),
{
    let ghost all = rects@;
    let mut v: Vec<Vertex> = Vec::new();
    let mut i: usize = 0;
    while i < rects.len()
        invariant
            i <= all.len(),
            all == rects@,
            rects_bounded(all),
            v@ == spec_frame_vertices(all.take(i as int)),
            v@.len() == 6 * i,
        decreases all.len() - i,
    {
        proof {
            assert(all.take(i + 1).drop_last() =~= all.take(i as int));
            assert(all.take(i + 1).last() == all[i as int]);
            assert(rect_bounded(all[i as int]));
        }
        let r = rects[i];
        let x0 = r.x as i128;
        let x1 = (r.x + r.width) as i128;
        let y_top = r.y;
        let y_hit = r.y + r.height;
        let c = r.color;
        v.push(Vertex { x: x0, y: y_hit, color: c });
        v.push(Vertex { x: x1, y: y_hit, color: c });
        v.push(Vertex { x: x0, y: y_top, color: c });
        v.push(Vertex { x: x1, y: y_hit, color: c });
        v.push(Vertex { x: x1, y: y_top, color: c });
        v.push(Vertex { x: x0, y: y_top, color: c });
        proof {
            assert(v@ =~= spec_frame_vertices(all.take(i as int)) + vertices_of_rect(
                all[i as int],
            ));
        }
        i = i + 1;
    }
    proof {
        assert(all.take(all.len() as int) =~= all);
    }
    v
}

/// A frame never yields more rectangles than there are notes.
pub proof fn lemma_visible_rects_len(notes: Seq<MidiNote>, now_us: u64, cfg: FrameConfig)
    ensures
        spec_visible_rects(notes, now_us, cfg).len() <= notes.len(),
    decreases notes.len(),
{
    if notes.len() > 0 {
        lemma_visible_rects_len(notes.drop_last(), now_us, cfg);
    }
}

} // verus!
