//! Algorithm selection of the pitch corrector and the latency it reports.

use vstd::prelude::*;

verus! {

/// Which pitch detection algorithm to use.
#[derive(Debug, Clone, Copy, PartialEq, Eq, Structural)]
pub enum DetectorMode {
    /// YIN (de Cheveigné & Kawahara, 2002). Low-latency autocorrelation.
    Yin,
    /// YAAPT (Kasi & Zahorian, 2002). Hybrid spectral + temporal with DP.
    Yaapt,
    /// pYIN (Mauch & Dixon, 2014). Probabilistic YIN with HMM Viterbi.
    Pyin,
    /// MPM (McLeod & Wyvill, 2005). Normalized SDF with key maxima.
    Mpm,
    /// Bitstream ACF. Ultra-fast 1-bit autocorrelation.
    Bitstream,
}

/// Which pitch shifting engine to use.
#[derive(Debug, Clone, Copy, PartialEq, Eq, Structural)]
pub enum ShifterMode {
    /// Automatically select PSOLA for small shifts, vocoder for large.
    Auto,
    /// Always use PSOLA (lower latency, inherent formant preservation).
    Psola,
    /// Always use phase vocoder (formant preservation via cepstral envelope).
    Vocoder,
    /// PVSOLA hybrid: phase vocoder + PSOLA with voicing-based blending.
    Pvsola,
}

/// Latency in samples of each detector and shifter of the chain.
#[derive(Debug, Clone, Copy, PartialEq, Eq, Structural)]
pub struct ComponentLatencies {
    pub yin: usize,
    pub yaapt: usize,
    pub pyin: usize,
    pub mpm: usize,
    pub bitstream: usize,
    pub psola: usize,
    pub vocoder: usize,
    pub pvsola: usize,
}

/// Latency of the selected detector.
pub open spec fn detector_latency(mode: DetectorMode, lat: ComponentLatencies) -> usize {
    match mode {
        DetectorMode::Yin => lat.yin,
        DetectorMode::Yaapt => lat.yaapt,
        DetectorMode::Pyin => lat.pyin,
        DetectorMode::Mpm => lat.mpm,
        DetectorMode::Bitstream => lat.bitstream,
    }
}

/// Latency of the selected shifter; automatic selection reports the
/// worst case, the vocoder's, for host compensation.
pub open spec fn shifter_latency(mode: ShifterMode, lat: ComponentLatencies) -> usize {
    match mode {
        ShifterMode::Psola => lat.psola,
        ShifterMode::Vocoder => lat.vocoder,
        ShifterMode::Pvsola => lat.pvsola,
        ShifterMode::Auto => lat.vocoder,
    }
}

/// Latency in samples of the chain: the active detector's plus the active
/// shifter's.
pub fn chain_latency(
    detector_mode: DetectorMode,
    shifter_mode: ShifterMode,
    lat: &ComponentLatencies,
) -> (n: usize)
    requires
        detector_latency(detector_mode, *lat) + shifter_latency(shifter_mode, *lat) <= usize::MAX,
    ensures
        n == detector_latency(detector_mode, *lat) + shifter_latency(shifter_mode, *lat),
{
    let detector = match detector_mode {
        DetectorMode::Yin => lat.yin,
        DetectorMode::Yaapt => lat.yaapt,
        DetectorMode::Pyin => lat.pyin,
        DetectorMode::Mpm => lat.mpm,
        DetectorMode::Bitstream => lat.bitstream,
    };
    let shifter = match shifter_mode {
        ShifterMode::Psola => lat.psola,
        ShifterMode::Vocoder => lat.vocoder,
        ShifterMode::Pvsola => lat.pvsola,
        ShifterMode::Auto => lat.vocoder,
    };
    detector + shifter
}

/// The detector selected by the detector parameter's index (0 YIN, 1 YAAPT,
/// 2 pYIN, 3 MPM, 4 bitstream); any other index selects YIN.
pub open spec fn detector_mode_from_param_spec(v: i32) -> DetectorMode {
    match v {
        1 => DetectorMode::Yaapt,
        2 => DetectorMode::Pyin,
        3 => DetectorMode::Mpm,
        4 => DetectorMode::Bitstream,
        _ => DetectorMode::Yin,
    }
}

/// Map the detector parameter's index to a detector.
pub fn detector_mode_from_param(v: i32) -> (m: DetectorMode)
    ensures
        m == detector_mode_from_param_spec(v),
{
    match v {
        1 => DetectorMode::Yaapt,
        2 => DetectorMode::Pyin,
        3 => DetectorMode::Mpm,
        4 => DetectorMode::Bitstream,
        _ => DetectorMode::Yin,
    }
}

/// The shifter selected by the shifter parameter's index (0 automatic,
/// 1 PSOLA, 2 vocoder, 3 PVSOLA); any other index selects automatic.
pub open spec fn shifter_mode_from_param_spec(v: i32) -> ShifterMode {
    match v {
        1 => ShifterMode::Psola,
        2 => ShifterMode::Vocoder,
        3 => ShifterMode::Pvsola,
        _ => ShifterMode::Auto,
    }
}

/// Map the shifter parameter's index to a shifter.
pub fn shifter_mode_from_param(v: i32) -> (m: ShifterMode)
    ensures
        m == shifter_mode_from_param_spec(v),
{
    match v {
        1 => ShifterMode::Psola,
        2 => ShifterMode::Vocoder,
        3 => ShifterMode::Pvsola,
        _ => ShifterMode::Auto,
    }
}

} // verus!
