// The container parser against an independent reader: on the same bytes,
// piano_roll's parser and the midly crate must agree on the events.
use piano_roll::parser::parse_midi;
use piano_roll::score::EventKind;

fn be16(v: u16) -> [u8; 2] {
    [(v >> 8) as u8, v as u8]
}

fn be32(v: u32) -> [u8; 4] {
    [(v >> 24) as u8, (v >> 16) as u8, (v >> 8) as u8, v as u8]
}

fn header(ntrks: u16, division: u16) -> Vec<u8> {
    let mut out = Vec::new();
    out.extend_from_slice(b"MThd");
    out.extend_from_slice(&be32(6));
    out.extend_from_slice(&be16(1));
    out.extend_from_slice(&be16(ntrks));
    out.extend_from_slice(&be16(division));
    out
}

fn track_chunk(events: &[u8]) -> Vec<u8> {
    let mut out = Vec::new();
    out.extend_from_slice(b"MTrk");
    out.extend_from_slice(&be32(events.len() as u32));
    out.extend_from_slice(events);
    out
}

fn agree(bytes: &Vec<u8>) {
    let score = parse_midi(bytes).unwrap();
    let smf = midly::Smf::parse(bytes).unwrap();
    assert_eq!(score.tracks.len(), smf.tracks.len());
    for (track, m_track) in score.tracks.iter().zip(smf.tracks.iter()) {
        assert_eq!(track.len(), m_track.len());
        for (ev, m_ev) in track.iter().zip(m_track.iter()) {
            assert_eq!(ev.delta, m_ev.delta.as_int());
            match m_ev.kind {
                midly::TrackEventKind::Midi {
                    channel,
                    message: midly::MidiMessage::NoteOn { key, vel },
                } => {
                    assert_eq!(
                        ev.kind,
                        EventKind::NoteOn {
                            channel: channel.as_int(),
                            key: key.as_int(),
                            velocity: vel.as_int(),
                        }
                    );
                }
                midly::TrackEventKind::Midi {
                    channel,
                    message: midly::MidiMessage::NoteOff { key, .. },
                } => {
                    assert_eq!(
                        ev.kind,
                        EventKind::NoteOff { channel: channel.as_int(), key: key.as_int() }
                    );
                }
                midly::TrackEventKind::Meta(midly::MetaMessage::Tempo(us_per_beat)) => {
                    assert_eq!(
                        ev.kind,
                        EventKind::Tempo { us_per_beat: us_per_beat.as_int() }
                    );
                }
                _ => {
                    assert_eq!(ev.kind, EventKind::Other);
                }
            }
        }
    }
}

#[test]
fn parsers_agree_on_a_plain_track() {
    let events: Vec<u8> = vec![
        0x00, 0xFF, 0x51, 0x03, 0x07, 0xA1, 0x20, // tempo 500000
        0x00, 0x90, 0x3C, 0x64, //
        0x81, 0x40, 0x80, 0x3C, 0x00, // two-byte delta 192
        0x00, 0xB0, 0x07, 0x7F, // controller event, carried as Other
        0x00, 0xC0, 0x05, // program change, one data byte
        0x00, 0xFF, 0x2F, 0x00,
    ];
    let mut bytes = header(1, 480);
    bytes.extend_from_slice(&track_chunk(&events));
    agree(&bytes);
}

#[test]
fn parsers_agree_on_running_status_and_two_tracks() {
    let events_a: Vec<u8> = vec![
        0x00, 0x93, 0x40, 0x40, //
        0x10, 0x41, 0x40, // running status
        0x10, 0x40, 0x00, // running status, velocity zero
        0x10, 0x41, 0x00, //
        0x00, 0xFF, 0x2F, 0x00,
    ];
    let events_b: Vec<u8> = vec![
        0x83, 0x60, 0x99, 0x23, 0x55, // four-hundred-eighty tick delta
        0x00, 0x89, 0x23, 0x40, //
        0x00, 0xFF, 0x2F, 0x00,
    ];
    let mut bytes = header(2, 96);
    bytes.extend_from_slice(&track_chunk(&events_a));
    bytes.extend_from_slice(&track_chunk(&events_b));
    agree(&bytes);
}

#[test]
fn parsers_agree_on_rejecting_garbage() {
    let bytes = b"MThd but not really a midi file".to_vec();
    assert!(parse_midi(&bytes).is_err());
    assert!(midly::Smf::parse(&bytes).is_err());
}
