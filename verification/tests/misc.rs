use fts_suite::bit_reversal::{bit_reverse, bit_reverse_permute};
use fts_suite::bitstream::Bitstream;
use fts_suite::modes::{
    chain_latency, detector_mode_from_param, shifter_mode_from_param, ComponentLatencies, DetectorMode,
    ShifterMode,
};
use fts_suite::sort::sort_ascending;

fn latencies() -> ComponentLatencies {
    ComponentLatencies {
        yin: 2048,
        yaapt: 4096,
        pyin: 3072,
        mpm: 1024,
        bitstream: 512,
        psola: 256,
        vocoder: 2048,
        pvsola: 1536,
    }
}

#[test]
fn chain_latency_adds_detector_and_shifter() {
    let lat = latencies();
    assert_eq!(chain_latency(DetectorMode::Yin, ShifterMode::Psola, &lat), 2304);
    assert_eq!(chain_latency(DetectorMode::Mpm, ShifterMode::Pvsola, &lat), 2560);
    assert_eq!(chain_latency(DetectorMode::Bitstream, ShifterMode::Vocoder, &lat), 2560);
    // Automatic selection reports the vocoder's latency.
    assert_eq!(chain_latency(DetectorMode::Yaapt, ShifterMode::Auto, &lat), 6144);
    assert_eq!(chain_latency(DetectorMode::Pyin, ShifterMode::Auto, &lat), 5120);
}

#[test]
fn sort_ascending_orders_values() {
    let v = vec![3i64, -10, 7, 0, -10, 2];
    assert_eq!(sort_ascending(&v), vec![-10, -10, 0, 2, 3, 7]);
    assert_eq!(sort_ascending(&Vec::new()), Vec::<i64>::new());
}

#[test]
fn bitstream_mismatch_counts() {
    let mut s = Bitstream::new(2);
    assert_eq!(s.len_bits(), 128);
    assert_eq!(s.n_words(), 2);
    for _ in 0..64 {
        s.push(true);
    }
    for _ in 0..64 {
        s.push(false);
    }
    // The recent half is the second word (all clear), compared with the
    // stretch `lag` bits later, wrapping into the first word (all set).
    assert_eq!(s.mismatch_count(0, 1), 0);
    assert_eq!(s.mismatch_count(64, 1), 64);
    assert_eq!(s.mismatch_count(32, 1), 32);
    assert_eq!(s.mismatch_count(1, 1), 1);
    assert_eq!(s.mismatch_count(0, 2), 0);
    assert_eq!(s.mismatch_count(64, 2), 128);
    s.clear();
    assert_eq!(s.mismatch_count(64, 2), 0);
}

#[test]
fn bitstream_alternating_bits() {
    let mut s = Bitstream::new(1);
    for i in 0..64 {
        s.push(i % 2 == 0);
    }
    assert_eq!(s.mismatch_count(1, 1), 64);
    assert_eq!(s.mismatch_count(2, 1), 0);
    assert_eq!(s.mismatch_count(3, 1), 64);
}

#[test]
fn bitstream_best_lag_finds_period() {
    let mut s = Bitstream::new(2);
    for i in 0..128 {
        s.push(i % 4 < 2);
    }
    assert_eq!(s.best_lag(1, 6, 1), Some((4, 0)));
    assert_eq!(s.best_lag(4, 8, 1), Some((4, 0)));
    // Lags 1 to 3 all disagree on half the bits or more.
    assert_eq!(s.best_lag(1, 3, 1), None);
    assert_eq!(s.best_lag(5, 3, 1), None);
}

#[test]
fn mode_parameter_indices() {
    assert_eq!(detector_mode_from_param(0), DetectorMode::Yin);
    assert_eq!(detector_mode_from_param(1), DetectorMode::Yaapt);
    assert_eq!(detector_mode_from_param(2), DetectorMode::Pyin);
    assert_eq!(detector_mode_from_param(3), DetectorMode::Mpm);
    assert_eq!(detector_mode_from_param(4), DetectorMode::Bitstream);
    assert_eq!(detector_mode_from_param(9), DetectorMode::Yin);
    assert_eq!(shifter_mode_from_param(0), ShifterMode::Auto);
    assert_eq!(shifter_mode_from_param(1), ShifterMode::Psola);
    assert_eq!(shifter_mode_from_param(2), ShifterMode::Vocoder);
    assert_eq!(shifter_mode_from_param(3), ShifterMode::Pvsola);
    assert_eq!(shifter_mode_from_param(-1), ShifterMode::Auto);
}

#[test]
fn bit_reversal_order() {
    assert_eq!(bit_reverse(1, 3), 4);
    assert_eq!(bit_reverse(6, 3), 3);
    assert_eq!(bit_reverse(0b1011, 4), 0b1101);
    assert_eq!(bit_reverse(5, 0), 0);
    let mut v: Vec<u32> = (0..8).collect();
    bit_reverse_permute(&mut v, 3);
    assert_eq!(v, vec![0, 4, 2, 6, 1, 5, 3, 7]);
    // Reordering twice restores the starting order.
    let mut w: Vec<u32> = (0..16).map(|x| x * 10).collect();
    bit_reverse_permute(&mut w, 4);
    bit_reverse_permute(&mut w, 4);
    assert_eq!(w, (0..16).map(|x| x * 10).collect::<Vec<u32>>());
    let mut one = vec![7i64];
    bit_reverse_permute(&mut one, 0);
    assert_eq!(one, vec![7]);
}
