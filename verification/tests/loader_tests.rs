use piano_roll::loader::load_midi_bytes;
use piano_roll::note::MidiNote;
use piano_roll::score::LoadError;

fn be16(v: u16) -> [u8; 2] {
    [(v >> 8) as u8, v as u8]
}

fn be32(v: u32) -> [u8; 4] {
    [(v >> 24) as u8, (v >> 16) as u8, (v >> 8) as u8, v as u8]
}

fn header(ntrks: u16, division: u16) -> Vec<u8> {
    let mut out = Vec::new();
    out.extend_from_slice(b"MThd");
    out.extend_from_slice(&be32(6));
    out.extend_from_slice(&be16(1));
    out.extend_from_slice(&be16(ntrks));
    out.extend_from_slice(&be16(division));
    out
}

fn track_chunk(events: &[u8]) -> Vec<u8> {
    let mut out = Vec::new();
    out.extend_from_slice(b"MTrk");
    out.extend_from_slice(&be32(events.len() as u32));
    out.extend_from_slice(events);
    out
}

fn tempo_event(us_per_beat: u32) -> Vec<u8> {
    let b = be32(us_per_beat);
    vec![0xFF, 0x51, 0x03, b[1], b[2], b[3]]
}

const END_OF_TRACK: [u8; 3] = [0xFF, 0x2F, 0x00];

fn note(pitch: u8, velocity: u8, start_time_us: u128, duration_us: u128) -> MidiNote {
    MidiNote { pitch, velocity, start_time_us, duration_us }
}

#[test]
fn single_note_default_resolution() {
    let mut events: Vec<u8> = vec![0x00];
    events.extend_from_slice(&tempo_event(500_000));
    events.extend_from_slice(&[0x00, 0x90, 0x3C, 0x64]);
    events.extend_from_slice(&[0x60, 0x80, 0x3C, 0x00]);
    events.push(0x00);
    events.extend_from_slice(&END_OF_TRACK);
    let mut bytes = header(1, 480);
    bytes.extend_from_slice(&track_chunk(&events));
    let notes = load_midi_bytes(&bytes).unwrap();
    // 96 ticks at 500,000 us per beat and 480 ticks per beat last 100,000 us
    assert_eq!(notes, vec![note(60, 100, 0, 100_000)]);
}

#[test]
fn garbage_is_malformed() {
    let bytes = b"this is not a midi file".to_vec();
    assert_eq!(load_midi_bytes(&bytes), Err(LoadError::Malformed));
}

#[test]
fn truncated_track_is_malformed() {
    let mut bytes = header(1, 480);
    bytes.extend_from_slice(b"MTrk");
    bytes.extend_from_slice(&be32(100));
    bytes.extend_from_slice(&[0x00, 0x90]);
    assert_eq!(load_midi_bytes(&bytes), Err(LoadError::Malformed));
}

#[test]
fn bad_magic_is_malformed() {
    let mut bytes = header(1, 480);
    bytes[0] = b'X';
    assert_eq!(load_midi_bytes(&bytes), Err(LoadError::Malformed));
}

#[test]
fn running_status_pairs_notes() {
    // one status byte, then data-only note-ons; velocity zero closes
    let events: Vec<u8> = vec![
        0x00, 0x90, 0x3C, 0x40, // note on, key 60
        0x00, 0x3E, 0x40, // running status: note on, key 62
        0x60, 0x3C, 0x00, // running status: key 60 off (velocity zero)
        0x60, 0x3E, 0x00, // running status: key 62 off
        0x00, 0xFF, 0x2F, 0x00,
    ];
    let mut bytes = header(1, 480);
    bytes.extend_from_slice(&track_chunk(&events));
    let notes = load_midi_bytes(&bytes).unwrap();
    // default 120 BPM: 96 ticks = 100,000 us, 192 ticks = 200,000 us
    assert_eq!(
        notes,
        vec![note(60, 64, 0, 100_000), note(62, 64, 0, 200_000)]
    );
}

#[test]
fn orphan_note_off_is_ignored() {
    let events: Vec<u8> = vec![
        0x00, 0x80, 0x3C, 0x00, // note off with nothing open
        0x00, 0x90, 0x3C, 0x50, //
        0x10, 0x80, 0x3C, 0x00, //
        0x00, 0xFF, 0x2F, 0x00,
    ];
    let mut bytes = header(1, 480);
    bytes.extend_from_slice(&track_chunk(&events));
    let notes = load_midi_bytes(&bytes).unwrap();
    assert_eq!(notes.len(), 1);
    assert_eq!(notes[0].pitch, 60);
}

#[test]
fn orphan_note_on_is_dropped() {
    let events: Vec<u8> = vec![
        0x00, 0x90, 0x3C, 0x50, // never closed before end of track
        0x00, 0xFF, 0x2F, 0x00,
    ];
    let mut bytes = header(1, 480);
    bytes.extend_from_slice(&track_chunk(&events));
    let notes = load_midi_bytes(&bytes).unwrap();
    assert_eq!(notes, vec![]);
}

#[test]
fn retrigger_emits_one_note_spanning_to_second_on() {
    // two note-ons for one key with no intervening note-off
    let events: Vec<u8> = vec![
        0x00, 0x90, 0x3C, 0x32, // on at tick 0, velocity 50
        0x60, 0x90, 0x3C, 0x46, // on again at tick 96, velocity 70
        0x00, 0xFF, 0x2F, 0x00,
    ];
    let mut bytes = header(1, 480);
    bytes.extend_from_slice(&track_chunk(&events));
    let notes = load_midi_bytes(&bytes).unwrap();
    // exactly one note, for the first on, closed at the second on
    assert_eq!(notes, vec![note(60, 50, 0, 100_000)]);
}

#[test]
fn three_pairs_on_distinct_keys_emit_three_notes() {
    let events: Vec<u8> = vec![
        0x00, 0x90, 0x30, 0x10, //
        0x10, 0x90, 0x40, 0x20, //
        0x10, 0x90, 0x50, 0x30, //
        0x10, 0x80, 0x30, 0x00, //
        0x10, 0x80, 0x40, 0x00, //
        0x10, 0x80, 0x50, 0x00, //
        0x00, 0xFF, 0x2F, 0x00,
    ];
    let mut bytes = header(1, 480);
    bytes.extend_from_slice(&track_chunk(&events));
    let notes = load_midi_bytes(&bytes).unwrap();
    assert_eq!(notes.len(), 3);
    // ascending by start time, and each start matches ticks * tempo / resolution
    let expected_starts: [u128; 3] = [0, 16_666, 33_333];
    for (i, n) in notes.iter().enumerate() {
        assert_eq!(n.start_time_us, expected_starts[i]);
        assert!(n.duration_us > 0);
    }
    assert_eq!(notes[0].pitch, 0x30);
    assert_eq!(notes[1].pitch, 0x40);
    assert_eq!(notes[2].pitch, 0x50);
}

#[test]
fn tempo_breakpoints_convert_under_start_tempo() {
    // breakpoints at ticks [0, 960] with values [500000, 250000], 480 ticks per beat
    let mut events: Vec<u8> = vec![0x00];
    events.extend_from_slice(&tempo_event(500_000));
    events.extend_from_slice(&[0x83, 0x60, 0x90, 0x3C, 0x64]); // on key 60 at tick 480
    events.push(0x83);
    events.push(0x60); // delta 480, reaching tick 960
    events.extend_from_slice(&tempo_event(250_000));
    events.extend_from_slice(&[0x00, 0x80, 0x3C, 0x00]); // off key 60 at tick 960
    events.extend_from_slice(&[0x00, 0x90, 0x3E, 0x64]); // on key 62 at tick 960
    events.extend_from_slice(&[0x83, 0x60, 0x80, 0x3E, 0x00]); // off at tick 1440
    events.extend_from_slice(&[0x00, 0xFF, 0x2F, 0x00]);
    let mut bytes = header(1, 480);
    bytes.extend_from_slice(&track_chunk(&events));
    let notes = load_midi_bytes(&bytes).unwrap();
    assert_eq!(notes.len(), 2);
    // the note spanning ticks [480, 960] uses the first tempo for its whole
    // span: 0.5 s start, 0.5 s duration
    assert_eq!(notes[0], note(60, 100, 500_000, 500_000));
    // the note starting at tick 960 uses the second tempo from there on
    assert_eq!(notes[1], note(62, 100, 500_000, 250_000));
}

#[test]
fn notes_are_sorted_by_start_time() {
    // second track starts a note earlier than the first track's note
    let events_a: Vec<u8> = vec![
        0x60, 0x90, 0x3C, 0x40, //
        0x10, 0x80, 0x3C, 0x00, //
        0x00, 0xFF, 0x2F, 0x00,
    ];
    let events_b: Vec<u8> = vec![
        0x00, 0x91, 0x30, 0x40, //
        0x10, 0x81, 0x30, 0x00, //
        0x00, 0xFF, 0x2F, 0x00,
    ];
    let mut bytes = header(2, 480);
    bytes.extend_from_slice(&track_chunk(&events_a));
    bytes.extend_from_slice(&track_chunk(&events_b));
    let notes = load_midi_bytes(&bytes).unwrap();
    assert_eq!(notes.len(), 2);
    assert_eq!(notes[0].pitch, 0x30);
    assert_eq!(notes[1].pitch, 0x3C);
    assert!(notes[0].start_time_us <= notes[1].start_time_us);
}

#[test]
fn missing_tempo_defaults_to_120_bpm() {
    let events: Vec<u8> = vec![
        0x00, 0x90, 0x3C, 0x64, //
        0x83, 0x60, 0x80, 0x3C, 0x00, // 480 ticks later
        0x00, 0xFF, 0x2F, 0x00,
    ];
    let mut bytes = header(1, 480);
    bytes.extend_from_slice(&track_chunk(&events));
    let notes = load_midi_bytes(&bytes).unwrap();
    // one whole beat at 120 BPM is half a second
    assert_eq!(notes, vec![note(60, 100, 0, 500_000)]);
}

#[test]
fn non_metrical_timing_falls_back_to_480() {
    let events: Vec<u8> = vec![
        0x00, 0x90, 0x3C, 0x64, //
        0x83, 0x60, 0x80, 0x3C, 0x00, //
        0x00, 0xFF, 0x2F, 0x00,
    ];
    // high bit set in the division word: SMPTE timing, unsupported
    let mut bytes = header(1, 0xE250);
    bytes.extend_from_slice(&track_chunk(&events));
    let notes = load_midi_bytes(&bytes).unwrap();
    assert_eq!(notes, vec![note(60, 100, 0, 500_000)]);
}

#[test]
fn unknown_chunks_are_skipped() {
    let events: Vec<u8> = vec![
        0x00, 0x90, 0x3C, 0x64, //
        0x60, 0x80, 0x3C, 0x00, //
        0x00, 0xFF, 0x2F, 0x00,
    ];
    let mut bytes = header(1, 480);
    bytes.extend_from_slice(b"XFIh");
    bytes.extend_from_slice(&be32(3));
    bytes.extend_from_slice(&[1, 2, 3]);
    bytes.extend_from_slice(&track_chunk(&events));
    let notes = load_midi_bytes(&bytes).unwrap();
    assert_eq!(notes.len(), 1);
    assert_eq!(notes[0].pitch, 60);
}

#[test]
fn channels_pair_independently() {
    // the same key on two channels: each off closes its own channel's note
    let events: Vec<u8> = vec![
        0x00, 0x90, 0x3C, 0x11, // channel 0 on at tick 0
        0x10, 0x91, 0x3C, 0x22, // channel 1 on at tick 16
        0x10, 0x81, 0x3C, 0x00, // channel 1 off at tick 32
        0x10, 0x80, 0x3C, 0x00, // channel 0 off at tick 48
        0x00, 0xFF, 0x2F, 0x00,
    ];
    let mut bytes = header(1, 480);
    bytes.extend_from_slice(&track_chunk(&events));
    let notes = load_midi_bytes(&bytes).unwrap();
    assert_eq!(notes.len(), 2);
    assert_eq!(notes[0].velocity, 0x11);
    assert_eq!(notes[1].velocity, 0x22);
    assert!(notes[0].duration_us > notes[1].duration_us);
}

#[test]
fn zero_length_note_has_zero_duration() {
    let events: Vec<u8> = vec![
        0x20, 0x90, 0x3C, 0x40, //
        0x00, 0x80, 0x3C, 0x00, // off at the same tick
        0x00, 0xFF, 0x2F, 0x00,
    ];
    let mut bytes = header(1, 480);
    bytes.extend_from_slice(&track_chunk(&events));
    let notes = load_midi_bytes(&bytes).unwrap();
    assert_eq!(notes, vec![note(60, 64, 33_333, 0)]);
}

#[test]
fn tempo_events_are_collected_from_every_track() {
    // the tempo lives in the second track; the first track's note, at the
    // same cumulative tick range, is converted under it
    let events_a: Vec<u8> = vec![
        0x60, 0x90, 0x3C, 0x40, // on at tick 96
        0x60, 0x80, 0x3C, 0x00, // off at tick 192
        0x00, 0xFF, 0x2F, 0x00,
    ];
    let mut events_b: Vec<u8> = vec![0x00];
    events_b.extend_from_slice(&tempo_event(250_000));
    events_b.push(0x00);
    events_b.extend_from_slice(&END_OF_TRACK);
    let mut bytes = header(2, 480);
    bytes.extend_from_slice(&track_chunk(&events_a));
    bytes.extend_from_slice(&track_chunk(&events_b));
    let notes = load_midi_bytes(&bytes).unwrap();
    // 96 ticks at 250,000 us per beat and 480 ticks per beat last 50,000 us
    assert_eq!(notes, vec![note(60, 64, 50_000, 50_000)]);
}

#[test]
fn open_notes_do_not_leak_across_tracks() {
    // a note left open in track one is not closed by track two's note-off
    let events_a: Vec<u8> = vec![
        0x00, 0x90, 0x3C, 0x40, //
        0x00, 0xFF, 0x2F, 0x00,
    ];
    let events_b: Vec<u8> = vec![
        0x60, 0x80, 0x3C, 0x00, //
        0x00, 0xFF, 0x2F, 0x00,
    ];
    let mut bytes = header(2, 480);
    bytes.extend_from_slice(&track_chunk(&events_a));
    bytes.extend_from_slice(&track_chunk(&events_b));
    let notes = load_midi_bytes(&bytes).unwrap();
    assert_eq!(notes, vec![]);
}
