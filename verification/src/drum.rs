//! Drum classes, their raw byte encoding and their display labels.

use vstd::prelude::*;

verus! {

/// Drum type classification result.
#[derive(Debug, Clone, Copy, PartialEq, Eq, Structural)]
pub enum DrumClass {
    Kick,
    Snare,
    HiHat,
    Tom,
    Unknown,
}

/// The byte that stands for a drum class in onset events.
pub open spec fn drum_class_raw_spec(c: DrumClass) -> u8 {
    match c {
        DrumClass::Kick => 0,
        DrumClass::Snare => 1,
        DrumClass::HiHat => 2,
        DrumClass::Tom => 3,
        DrumClass::Unknown => 255,
    }
}

/// The drum class that a raw byte stands for; every unknown byte is `Unknown`.
pub open spec fn drum_class_from_raw_spec(raw: u8) -> DrumClass {
    match raw {
        0 => DrumClass::Kick,
        1 => DrumClass::Snare,
        2 => DrumClass::HiHat,
        3 => DrumClass::Tom,
        _ => DrumClass::Unknown,
    }
}

/// Encode a drum class as the byte carried by onset events.
pub fn drum_class_to_raw(c: DrumClass) -> (raw: u8)
    ensures
        raw == drum_class_raw_spec(c),
{
    match c {
        DrumClass::Kick => 0,
        DrumClass::Snare => 1,
        DrumClass::HiHat => 2,
        DrumClass::Tom => 3,
        DrumClass::Unknown => 255,
    }
}

/// Decode the byte carried by an onset event.
pub fn drum_class_from_raw(raw: u8) -> (c: DrumClass)
    ensures
        c == drum_class_from_raw_spec(raw),
{
    match raw {
        0 => DrumClass::Kick,
        1 => DrumClass::Snare,
        2 => DrumClass::HiHat,
        3 => DrumClass::Tom,
        _ => DrumClass::Unknown,
    }
}

/// Decoding an encoded drum class gives the class back.
pub proof fn lemma_drum_class_raw_roundtrip(c: DrumClass)
    ensures
        drum_class_from_raw_spec(drum_class_raw_spec(c)) == c,
{
}

/// Encoding is injective: two classes with the same byte are the same class.
pub proof fn lemma_drum_class_raw_injective(a: DrumClass, b: DrumClass)
    requires
        drum_class_raw_spec(a) == drum_class_raw_spec(b),
    ensures
        a == b,
{
}

/// The drum class selected by a rounded selector parameter
/// (1 = kick, 2 = snare, 3 = hi-hat, 4 = tom, anything else = no target).
pub open spec fn drum_class_from_param_spec(v: i32) -> DrumClass {
    match v {
        1 => DrumClass::Kick,
        2 => DrumClass::Snare,
        3 => DrumClass::HiHat,
        4 => DrumClass::Tom,
        _ => DrumClass::Unknown,
    }
}

/// Map the rounded value of the target-drum selector to a drum class.
pub fn drum_class_from_param(v: i32) -> (c: DrumClass)
    ensures
        c == drum_class_from_param_spec(v),
{
    match v {
        1 => DrumClass::Kick,
        2 => DrumClass::Snare,
        3 => DrumClass::HiHat,
        4 => DrumClass::Tom,
        _ => DrumClass::Unknown,
    }
}

/// Whether a sample may open the signal path given the targeted drum class and
/// the last classification: everything passes without a target; with one,
/// hits of the target and not-yet-classified hits pass.
pub open spec fn timbre_pass_spec(target: DrumClass, last: DrumClass) -> bool {
    target == DrumClass::Unknown || last == target || last == DrumClass::Unknown
}

/// The pass decision of the timbre classifier.
pub fn timbre_pass(target: DrumClass, last: DrumClass) -> (pass: bool)
    ensures
        pass == timbre_pass_spec(target, last),
{
    match target {
        DrumClass::Unknown => true,
        _ => last == target || last == DrumClass::Unknown,
    }
}

/// The display label for a raw drum class byte.
pub open spec fn drum_class_label_spec(raw: u8) -> Seq<char> {
    match raw {
        0 => seq!['K', 'I', 'C', 'K'],
        1 => seq!['S', 'N', 'A', 'R', 'E'],
        2 => seq!['H', 'I', '-', 'H', 'A', 'T'],
        3 => seq!['T', 'O', 'M'],
        _ => seq!['\u{2014}'],
    }
}

/// Map a raw drum class byte to its display label.
pub fn drum_class_label(raw: u8) -> (label: &'static str)
    ensures
        label@ == drum_class_label_spec(raw),
{
    match raw {
        0 => {
            proof { reveal_strlit("KICK"); }
            "KICK"
        },
        1 => {
            proof { reveal_strlit("SNARE"); }
            "SNARE"
        },
        2 => {
            proof { reveal_strlit("HI-HAT"); }
            "HI-HAT"
        },
        3 => {
            proof { reveal_strlit("TOM"); }
            "TOM"
        },
        _ => {
            proof { reveal_strlit("\u{2014}"); }
            "\u{2014}"
        },
    }
}

/// The display colour for a raw drum class byte.
pub open spec fn drum_class_color_spec(raw: u8) -> Seq<char> {
    match raw {
        0 => seq!['#', 'e', 'f', '5', '3', '5', '0'],
        1 => seq!['#', 'f', '0', 'c', '0', '4', '0'],
        2 => seq!['#', '4', 'a', 'd', 'e', '8', '0'],
        3 => seq!['#', '8', 'b', '5', 'c', 'f', '6'],
        _ => seq!['#', '7', '3', '7', '3', '8', '0'],
    }
}

/// Map a raw drum class byte to its display colour.
pub fn drum_class_color(raw: u8) -> (color: &'static str)
    ensures
        color@ == drum_class_color_spec(raw),
{
    match raw {
        0 => {
            proof { reveal_strlit("#ef5350"); }
            "#ef5350"
        },
        1 => {
            proof { reveal_strlit("#f0c040"); }
            "#f0c040"
        },
        2 => {
            proof { reveal_strlit("#4ade80"); }
            "#4ade80"
        },
        3 => {
            proof { reveal_strlit("#8b5cf6"); }
            "#8b5cf6"
        },
        _ => {
            proof { reveal_strlit("#737380"); }
            "#737380"
        },
    }
}

} // verus!
