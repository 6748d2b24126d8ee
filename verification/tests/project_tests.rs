use piano_roll::note::MidiNote;
use piano_roll::project::{visible_rects, frame_vertices, Color, FrameConfig, NOTE_WIDTH_MPX};

const LEFT: Color = Color { r: 0, g: 100, b: 255 };
const RIGHT: Color = Color { r: 0, g: 255, b: 100 };

fn config() -> FrameConfig {
    FrameConfig {
        fall_duration_us: 2_000_000,
        viewport_width: 800,
        viewport_height: 600,
        hand_split_pitch: 60,
        color_left_hand: LEFT,
        color_right_hand: RIGHT,
    }
}

fn note(pitch: u8, start_time_us: u128, duration_us: u128) -> MidiNote {
    MidiNote { pitch, velocity: 100, start_time_us, duration_us }
}

#[test]
fn distant_note_is_culled_and_near_note_is_not() {
    let notes = vec![note(60, 10_000_000, 1_000_000)];
    let cfg = config();
    assert_eq!(visible_rects(&notes, 0, &cfg).len(), 0);
    assert_eq!(visible_rects(&notes, 9_500_000, &cfg).len(), 1);
}

#[test]
fn near_note_geometry() {
    // fall of 2 s over 600 px: 300 px per second
    let notes = vec![note(60, 10_000_000, 1_000_000)];
    let cfg = config();
    let rects = visible_rects(&notes, 9_500_000, &cfg);
    assert_eq!(rects.len(), 1);
    let r = rects[0];
    // 0.5 s to the hit: 150 px above the present line; 1 s long: 300 px tall
    // flipped to screen space, the top edge sits at 600 - 450 = 150 px
    assert_eq!(r.x, (60 - 48) * 20_000 + 800 * 250);
    assert_eq!(r.y, 150_000);
    assert_eq!(r.width, NOTE_WIDTH_MPX);
    assert_eq!(r.height, 300_000);
}

#[test]
fn window_edges_are_inclusive() {
    let cfg = config();
    // exactly one fall duration ahead: still included
    let ahead = vec![note(60, 3_000_000, 500_000)];
    assert_eq!(visible_rects(&ahead, 1_000_000, &cfg).len(), 1);
    // one microsecond further: excluded
    let beyond = vec![note(60, 3_000_001, 500_000)];
    assert_eq!(visible_rects(&beyond, 1_000_000, &cfg).len(), 0);
    // tail exactly at the present line: still included
    let tail = vec![note(60, 0, 1_000_000)];
    assert_eq!(visible_rects(&tail, 1_000_000, &cfg).len(), 1);
    // fully scrolled past: excluded
    assert_eq!(visible_rects(&tail, 1_000_001, &cfg).len(), 0);
}

#[test]
fn past_note_tail_geometry() {
    // a note struck 1 s ago whose tail is still falling
    let notes = vec![note(48, 0, 2_000_000)];
    let cfg = config();
    let rects = visible_rects(&notes, 1_000_000, &cfg);
    assert_eq!(rects.len(), 1);
    let r = rects[0];
    // hit line passed 300 px ago, height 600 px: top edge at 600 - 300 = 300 px
    assert_eq!(r.x, 800 * 250);
    assert_eq!(r.y, 300_000);
    assert_eq!(r.height, 600_000);
}

#[test]
fn hand_split_at_middle_c() {
    let cfg = config();
    let left = vec![note(59, 100_000, 700), note(59, 0, 1)];
    for r in visible_rects(&left, 0, &cfg) {
        assert_eq!(r.color, LEFT);
    }
    let right = vec![note(60, 100_000, 700), note(60, 0, 1)];
    for r in visible_rects(&right, 0, &cfg) {
        assert_eq!(r.color, RIGHT);
    }
}

#[test]
fn six_vertices_per_rectangle() {
    let notes = vec![note(60, 1_000_000, 500_000)];
    let cfg = config();
    let rects = visible_rects(&notes, 1_000_000, &cfg);
    let v = frame_vertices(&rects);
    assert_eq!(v.len(), 6);
    let r = rects[0];
    let x0 = r.x as i128;
    let x1 = (r.x + r.width) as i128;
    let y_top = r.y;
    let y_hit = r.y + r.height;
    let expect = [
        (x0, y_hit),
        (x1, y_hit),
        (x0, y_top),
        (x1, y_hit),
        (x1, y_top),
        (x0, y_top),
    ];
    for (vert, (x, y)) in v.iter().zip(expect.iter()) {
        assert_eq!(vert.x, *x);
        assert_eq!(vert.y, *y);
        assert_eq!(vert.color, r.color);
    }
}

#[test]
fn culling_keeps_note_order() {
    let cfg = config();
    let notes = vec![
        note(50, 950_000, 100_000),
        note(90, 99_000_000, 100_000), // far away, culled
        note(70, 1_500_000, 100_000),
    ];
    let rects = visible_rects(&notes, 1_000_000, &cfg);
    assert_eq!(rects.len(), 2);
    assert!(rects[0].x < rects[1].x);
    assert_eq!(rects[0].color, LEFT);
    assert_eq!(rects[1].color, RIGHT);
}
