use fts_suite::quantizer::{pitch_class_name, scale_from_param, NoteState, Scale, ScaleQuantizer};

fn enabled_count(q: &ScaleQuantizer) -> usize {
    q.notes.iter().filter(|&&n| n == NoteState::Enabled).count()
}

fn make_quantizer(key: u8, scale: Scale) -> ScaleQuantizer {
    let mut q = ScaleQuantizer::new();
    q.key = key;
    q.scale = scale;
    q.apply_scale();
    q
}

#[test]
fn pentatonic_has_five_notes() {
    let q = make_quantizer(0, Scale::MajorPentatonic);
    let count = q.notes.iter().filter(|&&n| n == NoteState::Enabled).count();
    assert_eq!(count, 5, "Major pentatonic should have 5 notes");

    let q = make_quantizer(0, Scale::MinorPentatonic);
    let count = q.notes.iter().filter(|&&n| n == NoteState::Enabled).count();
    assert_eq!(count, 5, "Minor pentatonic should have 5 notes");
}

#[test]
fn blues_has_six_notes() {
    let q = make_quantizer(0, Scale::Blues);
    let count = q.notes.iter().filter(|&&n| n == NoteState::Enabled).count();
    assert_eq!(count, 6, "Blues scale should have 6 notes");
}

#[test]
fn pitch_class_names() {
    assert_eq!(pitch_class_name(0), "C");
    assert_eq!(pitch_class_name(9), "A");
    assert_eq!(pitch_class_name(11), "B");
}

#[test]
fn pitch_class_name_wraps_and_uses_flats() {
    assert_eq!(pitch_class_name(3), "Eb");
    assert_eq!(pitch_class_name(10), "Bb");
    assert_eq!(pitch_class_name(13), "C#");
    assert_eq!(pitch_class_name(255), "Eb");
}

#[test]
fn new_quantizer_is_c_chromatic() {
    let q = ScaleQuantizer::new();
    assert_eq!(q.key, 0);
    assert_eq!(q.scale, Scale::Chromatic);
    assert_eq!(enabled_count(&q), 12);
}

#[test]
fn note_count_is_the_same_in_every_key() {
    for key in 0..12u8 {
        assert_eq!(enabled_count(&make_quantizer(key, Scale::Chromatic)), 12);
        assert_eq!(enabled_count(&make_quantizer(key, Scale::Major)), 7);
        assert_eq!(enabled_count(&make_quantizer(key, Scale::Minor)), 7);
        assert_eq!(enabled_count(&make_quantizer(key, Scale::MajorPentatonic)), 5);
        assert_eq!(enabled_count(&make_quantizer(key, Scale::MinorPentatonic)), 5);
        assert_eq!(enabled_count(&make_quantizer(key, Scale::Blues)), 6);
    }
    // A key above the octave still lands on the same pitch classes.
    assert_eq!(make_quantizer(19, Scale::Major).notes, make_quantizer(7, Scale::Major).notes);
}

#[test]
fn g_major_pitch_classes() {
    let q = make_quantizer(7, Scale::Major);
    let expected = [0usize, 2, 4, 6, 7, 9, 11];
    for pc in 0..12usize {
        let want = if expected.contains(&pc) { NoteState::Enabled } else { NoteState::Disabled };
        assert_eq!(q.notes[pc], want, "pitch class {pc}");
    }
    assert!(q.is_enabled(6));
    assert!(!q.is_enabled(5));
    assert!(q.is_enabled(18));
}

#[test]
fn custom_scale_keeps_user_notes() {
    let mut q = ScaleQuantizer::new();
    q.scale = Scale::Custom;
    q.notes = [NoteState::Disabled; 12];
    q.notes[0] = NoteState::Enabled;
    q.notes[7] = NoteState::Enabled;
    q.apply_scale();
    assert_eq!(enabled_count(&q), 2);
    assert_eq!(q.notes[0], NoteState::Enabled);
    assert_eq!(q.notes[7], NoteState::Enabled);
}

#[test]
fn nearest_offset_in_c_major() {
    let q = make_quantizer(0, Scale::Major);
    // C# lies between C and D: the tie goes up or down as asked.
    assert_eq!(q.nearest_enabled_offset(1, true), Some(1));
    assert_eq!(q.nearest_enabled_offset(1, false), Some(-1));
    // Enabled notes stay.
    assert_eq!(q.nearest_enabled_offset(4, true), Some(0));
    assert_eq!(q.nearest_enabled_offset(61, false), Some(-1));
}

#[test]
fn nearest_offset_in_sparse_custom_scale() {
    let mut q = ScaleQuantizer::new();
    q.scale = Scale::Custom;
    q.notes = [NoteState::Disabled; 12];
    q.notes[0] = NoteState::Enabled;
    q.notes[7] = NoteState::Enabled;
    // D is two semitones above C and five below G.
    assert_eq!(q.nearest_enabled_offset(2, true), Some(-2));
    // A is two semitones above G.
    assert_eq!(q.nearest_enabled_offset(9, false), Some(-2));
    // F# is one below G.
    assert_eq!(q.nearest_enabled_offset(6, false), Some(1));
}

#[test]
fn nearest_offset_none_without_enabled_notes() {
    let mut q = ScaleQuantizer::new();
    q.scale = Scale::Custom;
    q.notes = [NoteState::Disabled; 12];
    assert_eq!(q.nearest_enabled_offset(5, true), None);
}

#[test]
fn scale_parameter_indices() {
    assert_eq!(scale_from_param(0), Scale::Chromatic);
    assert_eq!(scale_from_param(1), Scale::Major);
    assert_eq!(scale_from_param(2), Scale::Minor);
    assert_eq!(scale_from_param(3), Scale::MajorPentatonic);
    assert_eq!(scale_from_param(4), Scale::MinorPentatonic);
    assert_eq!(scale_from_param(5), Scale::Blues);
    assert_eq!(scale_from_param(6), Scale::Custom);
    assert_eq!(scale_from_param(7), Scale::Chromatic);
    assert_eq!(scale_from_param(-3), Scale::Chromatic);
}

#[test]
fn scale_fits_checks_widest_degree() {
    let mut q = ScaleQuantizer::new();
    q.key = 244;
    q.scale = Scale::Major;
    assert!(q.scale_fits());
    q.key = 245;
    assert!(!q.scale_fits());
    q.scale = Scale::MajorPentatonic;
    assert!(q.scale_fits());
    q.key = 255;
    q.scale = Scale::Custom;
    assert!(q.scale_fits());
}
