use fts_suite::drum::{
    drum_class_color, drum_class_from_param, drum_class_from_raw, drum_class_label, drum_class_to_raw,
    DrumClass,
};

#[test]
fn drum_class_raw_roundtrip() {
    for c in [DrumClass::Kick, DrumClass::Snare, DrumClass::HiHat, DrumClass::Tom, DrumClass::Unknown] {
        assert_eq!(drum_class_from_raw(drum_class_to_raw(c)), c);
    }
    assert_eq!(drum_class_to_raw(DrumClass::Kick), 0);
    assert_eq!(drum_class_to_raw(DrumClass::Tom), 3);
    assert_eq!(drum_class_to_raw(DrumClass::Unknown), 255);
}

#[test]
fn unknown_raw_bytes_decode_to_unknown() {
    assert_eq!(drum_class_from_raw(4), DrumClass::Unknown);
    assert_eq!(drum_class_from_raw(200), DrumClass::Unknown);
    assert_eq!(drum_class_from_raw(2), DrumClass::HiHat);
}

#[test]
fn drum_selector_parameter() {
    assert_eq!(drum_class_from_param(0), DrumClass::Unknown);
    assert_eq!(drum_class_from_param(1), DrumClass::Kick);
    assert_eq!(drum_class_from_param(2), DrumClass::Snare);
    assert_eq!(drum_class_from_param(3), DrumClass::HiHat);
    assert_eq!(drum_class_from_param(4), DrumClass::Tom);
    assert_eq!(drum_class_from_param(5), DrumClass::Unknown);
    assert_eq!(drum_class_from_param(-1), DrumClass::Unknown);
}

#[test]
fn drum_labels_and_colors() {
    assert_eq!(drum_class_label(0), "KICK");
    assert_eq!(drum_class_label(1), "SNARE");
    assert_eq!(drum_class_label(2), "HI-HAT");
    assert_eq!(drum_class_label(3), "TOM");
    assert_eq!(drum_class_label(255), "\u{2014}");
    assert_eq!(drum_class_color(0), "#ef5350");
    assert_eq!(drum_class_color(1), "#f0c040");
}
