use fts_suite::datasets::{
    deinterleave, guitarset_audio_names, guitarset_entry, is_jams_extension, is_midi_extension, is_wav_extension,
    midi_stem_for_wav, pair_guitar_techs, replace_all_str,
};

fn file(path: &str, stem: &str) -> (String, String) {
    (path.to_string(), stem.to_string())
}

#[test]
fn replace_all_replaces_every_occurrence() {
    assert_eq!(replace_all_str("aXbXc", "X", "--"), "a--b--c");
    assert_eq!(replace_all_str("aaaa", "aa", "b"), "bb");
    assert_eq!(replace_all_str("aaa", "aa", "b"), "ba");
    assert_eq!(replace_all_str("", "x", "y"), "");
    assert_eq!(replace_all_str("héllo wörld", "ö", "oe"), "héllo woerld");
}

#[test]
fn midi_stem_for_direct_input_stem() {
    assert_eq!(midi_stem_for_wav("directinput_scales_C"), "midi_scales_C");
    assert_eq!(midi_stem_for_wav("chords"), "chords");
}

#[test]
fn single_recording_pairs_directly() {
    let wavs = vec![file("/d/P1/audio/directinput/take.wav", "take")];
    let midis = vec![file("/d/P1/midi/other.mid", "other")];
    let entries = pair_guitar_techs("P1_singlenotes", &wavs, &midis);
    assert_eq!(entries.len(), 1);
    assert_eq!(entries[0].category, "P1_singlenotes");
    assert_eq!(entries[0].di_audio, "/d/P1/audio/directinput/take.wav");
    assert_eq!(entries[0].midi, "/d/P1/midi/other.mid");
}

#[test]
fn several_recordings_pair_by_name() {
    let wavs = vec![
        file("a/directinput_one.wav", "directinput_one"),
        file("a/directinput_two.wav", "directinput_two"),
        file("a/directinput_three.wav", "directinput_three"),
    ];
    let midis = vec![
        file("m/midi_two.mid", "midi_two"),
        file("m/midi_one.mid", "midi_one"),
        file("m/midi_one.midi", "midi_one"),
    ];
    let entries = pair_guitar_techs("P3", &wavs, &midis);
    let pairs: Vec<(String, String)> =
        entries.iter().map(|e| (e.di_audio.clone(), e.midi.clone())).collect();
    assert_eq!(
        pairs,
        vec![
            ("a/directinput_one.wav".to_string(), "m/midi_one.mid".to_string()),
            ("a/directinput_one.wav".to_string(), "m/midi_one.midi".to_string()),
            ("a/directinput_two.wav".to_string(), "m/midi_two.mid".to_string()),
        ]
    );
    assert!(entries.iter().all(|e| e.category == "P3"));
}

#[test]
fn guitarset_names_and_selection() {
    let (hex, mono) = guitarset_audio_names("00_BN1-129-Eb_comp");
    assert_eq!(hex, "00_BN1-129-Eb_comp_hex_cln.wav");
    assert_eq!(mono, "00_BN1-129-Eb_comp_mix.wav");
    let e = guitarset_entry("n".to_string(), "a".to_string(), hex.clone(), mono.clone(), true, true)
        .expect("both recordings exist");
    assert_eq!(e.name, "n");
    assert_eq!(e.hex_audio, hex);
    assert!(guitarset_entry("n".to_string(), "a".to_string(), hex, mono, true, false).is_none());
}

#[test]
fn file_extensions() {
    assert!(is_jams_extension("jams"));
    assert!(!is_jams_extension("json"));
    assert!(is_wav_extension("wav"));
    assert!(!is_wav_extension("WAV"));
    assert!(is_midi_extension("mid"));
    assert!(is_midi_extension("midi"));
    assert!(!is_midi_extension("mi"));
}

#[test]
fn deinterleave_splits_whole_frames() {
    let samples: Vec<i32> = (0..14).collect();
    let chans = deinterleave(&samples, 3);
    // 14 samples make four whole frames of three; the last two are dropped.
    assert_eq!(chans, vec![vec![0, 3, 6, 9], vec![1, 4, 7, 10], vec![2, 5, 8, 11]]);
    assert_eq!(deinterleave(&vec![1.5f64, 2.5], 1), vec![vec![1.5, 2.5]]);
    assert_eq!(deinterleave(&Vec::<u8>::new(), 6), vec![Vec::<u8>::new(); 6]);
}

#[test]
fn replace_with_empty_pattern_surrounds_every_char() {
    assert_eq!(replace_all_str("ab", "", "-"), "-a-b-");
    assert_eq!(replace_all_str("", "", "x"), "x");
    assert_eq!(replace_all_str("aXbX", "X", ""), "ab");
}
