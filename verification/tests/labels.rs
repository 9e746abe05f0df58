use fts_suite::labels::{
    detector_text, drum_target_text, key_text, scale_text, shifter_text, sidechain_text, switch_text,
    detector_index_from_label, drum_target_from_label, key_index_from_label, key_index_from_trimmed, normalize_label, note_number_from_label,
    scale_index_from_label, shifter_index_from_label, sidechain_external_from_label, switch_from_label,
};

#[test]
fn labels_are_trimmed_and_lower_cased() {
    assert_eq!(normalize_label("  Maj Penta\t"), "maj penta");
    assert_eq!(normalize_label("PYIN"), "pyin");
}

#[test]
fn scale_labels() {
    assert_eq!(scale_index_from_label("Chromatic"), Some(0));
    assert_eq!(scale_index_from_label(" major "), Some(1));
    assert_eq!(scale_index_from_label("MAJOR PENTATONIC"), Some(3));
    assert_eq!(scale_index_from_label("min penta"), Some(4));
    assert_eq!(scale_index_from_label("6"), Some(6));
    // Unknown names fall back to the text read as a number.
    assert_eq!(scale_index_from_label("9"), Some(9));
    assert_eq!(scale_index_from_label(" 9"), None);
    assert_eq!(scale_index_from_label("dorian"), None);
}

#[test]
fn detector_and_shifter_labels() {
    assert_eq!(detector_index_from_label("YIN"), Some(0));
    assert_eq!(detector_index_from_label("Bitstream"), Some(4));
    assert_eq!(detector_index_from_label("-1"), Some(-1));
    assert_eq!(detector_index_from_label("crepe"), None);
    assert_eq!(shifter_index_from_label("Hybrid"), Some(3));
    assert_eq!(shifter_index_from_label("psola"), Some(1));
    assert_eq!(shifter_index_from_label("vocoder "), Some(2));
    assert_eq!(shifter_index_from_label("x"), None);
}

#[test]
fn drum_target_labels() {
    assert_eq!(drum_target_from_label("Off"), Some(0));
    assert_eq!(drum_target_from_label("Hi-Hat"), Some(3));
    assert_eq!(drum_target_from_label("hat"), Some(3));
    assert_eq!(drum_target_from_label("DI"), Some(5));
    assert_eq!(drum_target_from_label("7"), None);
}

#[test]
fn switch_and_sidechain_labels() {
    assert_eq!(switch_from_label("On"), Some(true));
    assert_eq!(switch_from_label("FALSE"), Some(false));
    assert_eq!(switch_from_label("0.7"), None);
    assert_eq!(sidechain_external_from_label("Ext"), Some(true));
    assert_eq!(sidechain_external_from_label("internal"), Some(false));
    assert_eq!(sidechain_external_from_label("side"), None);
}

#[test]
fn note_number_labels() {
    assert_eq!(note_number_from_label(" 40 "), Some(40));
    assert_eq!(note_number_from_label("E2"), None);
}

#[test]
fn key_labels() {
    assert_eq!(key_index_from_label("C"), Some(0));
    assert_eq!(key_index_from_label(" eb "), Some(3));
    assert_eq!(key_index_from_label("F#"), Some(6));
    assert_eq!(key_index_from_label("bB"), Some(10));
    assert_eq!(key_index_from_label("11"), Some(11));
    assert_eq!(key_index_from_label("H"), None);
    assert_eq!(key_index_from_trimmed("Ab", None), Some(8));
    assert_eq!(key_index_from_trimmed("x", Some(4)), Some(4));
}

#[test]
fn value_texts() {
    assert_eq!(scale_text(3), "Maj Penta");
    assert_eq!(scale_text(9), "9");
    assert_eq!(scale_text(-12), "-12");
    assert_eq!(detector_text(2), "pYIN");
    assert_eq!(shifter_text(3), "PVSOLA");
    assert_eq!(shifter_text(4), "4");
    assert_eq!(drum_target_text(3), "Hi-Hat");
    assert_eq!(drum_target_text(9), "Off");
    assert_eq!(key_text(6), "F#");
    assert_eq!(key_text(-1), "?");
    assert_eq!(switch_text(true), "On");
    assert_eq!(sidechain_text(false), "Internal");
}

#[test]
fn value_texts_read_back() {
    for v in 0..7 {
        assert_eq!(scale_index_from_label(&scale_text(v)), Some(v));
    }
    for v in 0..5 {
        assert_eq!(detector_index_from_label(&detector_text(v)), Some(v));
    }
    for v in 0..4 {
        assert_eq!(shifter_index_from_label(&shifter_text(v)), Some(v));
    }
    for v in 0..6 {
        assert_eq!(drum_target_from_label(drum_target_text(v)), Some(v as u8));
    }
    for v in 0..12 {
        assert_eq!(key_index_from_label(key_text(v)), Some(v));
    }
    for b in [false, true] {
        assert_eq!(switch_from_label(switch_text(b)), Some(b));
        assert_eq!(sidechain_external_from_label(sidechain_text(b)), Some(b));
    }
}

#[test]
fn numbers_read_with_sign_and_range() {
    assert_eq!(scale_index_from_label("+5"), Some(5));
    assert_eq!(scale_index_from_label("-"), None);
    assert_eq!(scale_index_from_label("+"), None);
    assert_eq!(scale_index_from_label("2147483647"), Some(2147483647));
    assert_eq!(scale_index_from_label("2147483648"), None);
    assert_eq!(scale_index_from_label("-2147483648"), Some(-2147483648));
    assert_eq!(note_number_from_label("\u{3000}007 "), Some(7));
}
