use fts_suite::notes::{
    active_note_bits, format_active_notes, harmonic_bins, midi_note_name, note_map_for_range,
    note_range_for, update_note_states, NoteChange, WindowClock,
};

#[test]
fn midi_note_names() {
    assert_eq!(midi_note_name(69), "A4");
    assert_eq!(midi_note_name(60), "C4");
    assert_eq!(midi_note_name(40), "E2");
    assert_eq!(midi_note_name(0), "C-1");
    assert_eq!(midi_note_name(11), "B-1");
    assert_eq!(midi_note_name(12), "C0");
    assert_eq!(midi_note_name(127), "G9");
    assert_eq!(midi_note_name(130), "A#9");
    assert_eq!(midi_note_name(255), "D#20");
}

#[test]
fn active_notes_text() {
    assert_eq!(format_active_notes(0, 0), "\u{2014}");
    let lo = (1u64 << 40) | (1u64 << 45) | (1u64 << 50);
    assert_eq!(format_active_notes(lo, 0), "E2 A2 D3");
    assert_eq!(format_active_notes(0, 1u64 << 5), "A4");
    assert_eq!(format_active_notes(1, 1u64 << 63), "C-1 G9");
}

#[test]
fn active_bits_from_bins() {
    let active = vec![true, false, true, true];
    let map = vec![40u8, 41, 64, 40];
    let (lo, hi, count) = active_note_bits(&active, &map);
    assert_eq!(lo, 1u64 << 40);
    assert_eq!(hi, 1);
    assert_eq!(count, 3);
    assert_eq!(format_active_notes(lo, hi), "E2 E4");
}

#[test]
fn note_range_clamps_to_midi() {
    assert_eq!(note_range_for(40, 88), (40, 88));
    assert_eq!(note_range_for(200, 10), (127, 127));
    assert_eq!(note_range_for(50, 30), (50, 50));
    assert_eq!(note_range_for(30, 200), (30, 127));
}

#[test]
fn note_map_covers_range() {
    assert_eq!(note_map_for_range(40, 43), vec![40u8, 41, 42, 43]);
    assert_eq!(note_map_for_range(127, 127), vec![127u8]);
}

#[test]
fn window_state_machine() {
    let mut active = vec![false, true, true, false];
    let map = vec![40u8, 41, 42, 43];
    let trigger = vec![true, true, false, false];
    let release = vec![true, true, false, true];
    let changes = update_note_states(&mut active, &map, &trigger, &release);
    assert_eq!(active, vec![true, false, true, false]);
    assert_eq!(
        changes,
        vec![NoteChange { note: 40, is_on: true }, NoteChange { note: 41, is_on: false }]
    );
    // A second identical window: bin 0 now releases, bin 1 starts again.
    let changes = update_note_states(&mut active, &map, &trigger, &release);
    assert_eq!(active, vec![false, true, true, false]);
    assert_eq!(
        changes,
        vec![NoteChange { note: 40, is_on: false }, NoteChange { note: 41, is_on: true }]
    );
}

#[test]
fn harmonic_bins_in_range() {
    // Low E (40) in a 40..=88 bank: harmonics at 52, 59, 64, 68, 71, 76.
    assert_eq!(harmonic_bins(40, 40, 88), vec![12usize, 19, 24, 28, 31, 36]);
    // Only the harmonics that fall inside the bank.
    assert_eq!(harmonic_bins(60, 40, 88), vec![32usize, 39, 44, 48]);
    assert_eq!(harmonic_bins(127, 0, 127), Vec::<usize>::new());
}

#[test]
fn window_clock_fires_every_window() {
    let mut c = WindowClock::new(4);
    let fired: Vec<bool> = (0..9).map(|_| c.tick()).collect();
    assert_eq!(fired, vec![false, false, false, true, false, false, false, true, false]);
    // A zero window means every sample.
    let mut one = WindowClock::new(0);
    assert!(one.tick());
    assert!(one.tick());
    // Shrinking the window below the count fires at the next sample.
    let mut s = WindowClock::new(10);
    for _ in 0..5 {
        assert!(!s.tick());
    }
    s.set_size(3);
    assert!(s.tick());
    s.reset();
    assert!(!s.tick());
}
