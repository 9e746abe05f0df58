use fts_suite::midi::{
    parse_midi_bytes, score_from_tracks, sort_by_onset, tempo_changes, time_at, track_notes, MidiEvent, MidiEventKind,
    MidiTimedNote, MidiTiming, DEFAULT_TEMPO,
};

fn ev(delta: u32, kind: MidiEventKind) -> MidiEvent {
    MidiEvent { delta, kind }
}

fn on(channel: u8, key: u8, vel: u8) -> MidiEventKind {
    MidiEventKind::NoteOn { channel, key, vel }
}

fn off(channel: u8, key: u8) -> MidiEventKind {
    MidiEventKind::NoteOff { channel, key }
}

#[test]
fn tempo_map_and_times() {
    let track = vec![
        ev(0, on(0, 60, 100)),
        ev(480, MidiEventKind::Tempo(250_000)),
        ev(480, MidiEventKind::Other),
    ];
    let changes = tempo_changes(&track);
    assert_eq!(changes, vec![(480u128, 250_000u32)]);
    // Before the change the default tempo applies.
    assert_eq!(time_at(&changes, 0), 0);
    assert_eq!(time_at(&changes, 480), 480 * DEFAULT_TEMPO as u128);
    assert_eq!(time_at(&changes, 960), 480 * 500_000 + 480 * 250_000);
}

#[test]
fn notes_pair_on_and_off() {
    let track = vec![
        ev(0, on(0, 60, 100)),
        ev(480, off(0, 60)),
        ev(0, MidiEventKind::Tempo(250_000)),
        ev(0, on(1, 64, 90)),
        // A velocity-0 note-on releases.
        ev(480, on(1, 64, 0)),
        // Releasing a silent key does nothing.
        ev(10, off(2, 70)),
        // A note still sounding at the end is dropped.
        ev(0, on(0, 67, 80)),
    ];
    let notes = track_notes(&track);
    assert_eq!(
        notes,
        vec![
            MidiTimedNote {
                onset_tick: 0,
                offset_tick: 480,
                onset: 0,
                offset: 240_000_000,
                note: 60,
                velocity: 100,
                channel: 0,
            },
            MidiTimedNote {
                onset_tick: 480,
                offset_tick: 960,
                onset: 240_000_000,
                offset: 360_000_000,
                note: 64,
                velocity: 90,
                channel: 1,
            },
        ]
    );
}

#[test]
fn retriggered_note_keeps_latest_onset() {
    let track = vec![ev(0, on(0, 50, 10)), ev(100, on(0, 50, 20)), ev(100, off(0, 50))];
    let notes = track_notes(&track);
    assert_eq!(notes.len(), 1);
    assert_eq!(notes[0].onset_tick, 100);
    assert_eq!(notes[0].offset_tick, 200);
    assert_eq!(notes[0].velocity, 20);
}

#[test]
fn score_concatenates_tracks() {
    let t1 = vec![ev(0, on(0, 40, 1)), ev(10, off(0, 40))];
    let t2 = vec![ev(5, on(3, 41, 2)), ev(5, off(3, 41))];
    let score = score_from_tracks(MidiTiming::Metrical(96), &vec![t1, t2]);
    assert_eq!(score.timing, MidiTiming::Metrical(96));
    let keys: Vec<u8> = score.notes.iter().map(|n| n.note).collect();
    assert_eq!(keys, vec![40, 41]);
    assert_eq!(score.notes[1].onset_tick, 5);
    assert_eq!(score.notes[1].offset, 10 * 500_000);
}

#[test]
fn parses_standard_midi_file_bytes() {
    let mut bytes: Vec<u8> = Vec::new();
    bytes.extend_from_slice(b"MThd");
    bytes.extend_from_slice(&[0, 0, 0, 6, 0, 0, 0, 1, 0x01, 0xE0]);
    bytes.extend_from_slice(b"MTrk");
    let body: [u8; 16] = [
        0x00, 0x90, 0x3C, 0x64, // note on C4 velocity 100
        0x83, 0x60, 0x80, 0x3C, 0x40, // 480 ticks later, note off
        0x00, 0xFF, 0x51, 0x03, 0x03, 0xD0, 0x90, // tempo 250000
    ];
    let mut track: Vec<u8> = body.to_vec();
    track.extend_from_slice(&[0x00, 0xFF, 0x2F, 0x00]);
    bytes.extend_from_slice(&(track.len() as u32).to_be_bytes());
    bytes.extend_from_slice(&track);
    let score = parse_midi_bytes(&bytes).expect("valid file");
    assert_eq!(score.timing, MidiTiming::Metrical(480));
    assert_eq!(
        score.notes,
        vec![MidiTimedNote {
            onset_tick: 0,
            offset_tick: 480,
            onset: 0,
            offset: 240_000_000,
            note: 60,
            velocity: 100,
            channel: 0,
        }]
    );
}

#[test]
fn rejects_bytes_that_are_not_midi() {
    let err = parse_midi_bytes(b"not a midi file").err().expect("must fail");
    assert!(err.starts_with("Failed to parse MIDI: "), "{err}");
}

fn timed(onset: u128, note: u8) -> MidiTimedNote {
    MidiTimedNote {
        onset_tick: onset,
        offset_tick: onset,
        onset,
        offset: onset,
        note,
        velocity: 1,
        channel: 0,
    }
}

#[test]
fn sort_by_onset_is_stable() {
    let notes = vec![timed(30, 1), timed(10, 2), timed(30, 3), timed(10, 4), timed(20, 5)];
    let sorted = sort_by_onset(&notes);
    let keys: Vec<u8> = sorted.iter().map(|n| n.note).collect();
    assert_eq!(keys, vec![2, 4, 5, 1, 3]);
    assert!(sort_by_onset(&Vec::new()).is_empty());
}

fn track_chunk(body: &[u8]) -> Vec<u8> {
    let mut out: Vec<u8> = b"MTrk".to_vec();
    let mut track: Vec<u8> = body.to_vec();
    track.extend_from_slice(&[0x00, 0xFF, 0x2F, 0x00]);
    out.extend_from_slice(&(track.len() as u32).to_be_bytes());
    out.extend_from_slice(&track);
    out
}

#[test]
fn parsed_notes_come_in_onset_order_across_tracks() {
    let mut bytes: Vec<u8> = b"MThd".to_vec();
    bytes.extend_from_slice(&[0, 0, 0, 6, 0, 1, 0, 2, 0x01, 0xE0]);
    // First track: C4 from tick 480 to 960.
    bytes.extend_from_slice(&track_chunk(&[0x83, 0x60, 0x90, 0x3C, 0x64, 0x83, 0x60, 0x80, 0x3C, 0x40]));
    // Second track: D4 on channel 2 from tick 0 to 240.
    bytes.extend_from_slice(&track_chunk(&[0x00, 0x92, 0x3E, 0x50, 0x81, 0x70, 0x82, 0x3E, 0x40]));
    let score = parse_midi_bytes(&bytes).expect("valid file");
    let keys: Vec<u8> = score.notes.iter().map(|n| n.note).collect();
    assert_eq!(keys, vec![62, 60]);
    assert_eq!(score.notes[0].channel, 2);
    assert_eq!(score.notes[0].onset, 0);
    assert_eq!(score.notes[1].onset, 480 * 500_000);
    assert!(score.notes.iter().all(|n| n.note < 128 && n.channel < 16 && n.velocity > 0));
}
