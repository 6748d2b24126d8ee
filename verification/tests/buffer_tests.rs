use piano_roll::buffer::{update_frame, VertexBuffer, VERTEX_BYTES};
use piano_roll::note::MidiNote;
use piano_roll::project::{Color, FrameConfig};

fn config() -> FrameConfig {
    FrameConfig {
        fall_duration_us: 2_000_000,
        viewport_width: 800,
        viewport_height: 600,
        hand_split_pitch: 60,
        color_left_hand: Color { r: 0, g: 100, b: 255 },
        color_right_hand: Color { r: 0, g: 255, b: 100 },
    }
}

#[test]
fn growth_is_twice_the_required_size() {
    let mut buf = VertexBuffer::new(1200);
    // 100 vertices need 2000 bytes, beyond 1200: grow to twice the need
    assert_eq!(buf.prepare_frame(100), Some(4000));
    assert_eq!(buf.capacity_bytes, 4000);
    assert_eq!(buf.num_vertices, 100);
}

#[test]
fn same_or_smaller_frames_after_growth_do_not_reallocate() {
    let mut buf = VertexBuffer::new(1200);
    assert_eq!(buf.prepare_frame(100), Some(4000));
    assert_eq!(buf.prepare_frame(100), None);
    assert_eq!(buf.prepare_frame(60), None);
    assert_eq!(buf.capacity_bytes, 4000);
    // exceeding the capacity grows again, to twice the new need
    assert_eq!(buf.prepare_frame(250), Some(2 * 250 * VERTEX_BYTES));
}

#[test]
fn empty_frame_draws_nothing_and_keeps_the_buffer() {
    let mut buf = VertexBuffer::new(1200);
    let cfg = config();
    let far = vec![MidiNote { pitch: 60, velocity: 99, start_time_us: 50_000_000, duration_us: 1 }];
    let (vertices, realloc) = update_frame(&mut buf, &far, 0, &cfg);
    assert_eq!(vertices.len(), 0);
    assert_eq!(realloc, None);
    assert_eq!(buf.num_vertices, 0);
    assert_eq!(buf.capacity_bytes, 1200);

    let none: Vec<MidiNote> = vec![];
    let (vertices, realloc) = update_frame(&mut buf, &none, 123, &cfg);
    assert_eq!(vertices.len(), 0);
    assert_eq!(realloc, None);
    assert_eq!(buf.num_vertices, 0);
    assert_eq!(buf.capacity_bytes, 1200);
}

#[test]
fn visible_frame_sets_draw_count_and_grows_once() {
    let mut buf = VertexBuffer::new(100);
    let cfg = config();
    let notes = vec![MidiNote {
        pitch: 64,
        velocity: 80,
        start_time_us: 1_000_000,
        duration_us: 500_000,
    }];
    let (vertices, realloc) = update_frame(&mut buf, &notes, 500_000, &cfg);
    assert_eq!(vertices.len(), 6);
    assert_eq!(buf.num_vertices, 6);
    // 6 vertices need 120 bytes, beyond 100: grow to 240
    assert_eq!(realloc, Some(240));
    assert_eq!(buf.capacity_bytes, 240);
    // the same frame again fits
    let (_, realloc) = update_frame(&mut buf, &notes, 500_000, &cfg);
    assert_eq!(realloc, None);
}
