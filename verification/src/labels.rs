//! Parameter values as text. Typed-in labels are trimmed and lower-cased,
//! matched against the names each parameter accepts, and otherwise, for
//! the integer parameters, read as a decimal number; the texts shown for
//! the values read back as the same values.

use vstd::prelude::*;

use crate::quantizer::{is_scale_degree, pitch_class_name, pitch_class_name_spec, scale_from_param_spec};

verus! {

/// The characters with the Unicode White_Space property.
pub open spec fn is_white_space(c: char) -> bool {
    ||| '\u{9}' <= c && c <= '\u{d}'
    ||| c == ' ' || c == '\u{85}' || c == '\u{a0}' || c == '\u{1680}'
    ||| '\u{2000}' <= c && c <= '\u{200a}'
    ||| c == '\u{2028}' || c == '\u{2029}' || c == '\u{202f}' || c == '\u{205f}' || c == '\u{3000}'
}

/// `s` without its leading white space.
pub open spec fn trim_start(s: Seq<char>) -> Seq<char>
    decreases s.len(),
{
    if s.len() > 0 && is_white_space(s[0]) {
        trim_start(s.skip(1))
    } else {
        s
    }
}

/// `s` without its trailing white space.
pub open spec fn trim_end(s: Seq<char>) -> Seq<char>
    decreases s.len(),
{
    if s.len() > 0 && is_white_space(s.last()) {
        trim_end(s.drop_last())
    } else {
        s
    }
}

/// `s` without white space at either end.
pub open spec fn trimmed(s: Seq<char>) -> Seq<char> {
    trim_end(trim_start(s))
}

/// What `str::to_lowercase` gives for `s` (Unicode lower-case mapping).
pub uninterp spec fn lowercased(s: Seq<char>) -> Seq<char>;

/// An ASCII decimal digit.
pub open spec fn is_digit(c: char) -> bool {
    '0' <= c && c <= '9'
}

/// The value of a run of decimal digits.
pub open spec fn digits_value(s: Seq<char>) -> int
    decreases s.len(),
{
    if s.len() == 0 {
        0
    } else {
        digits_value(s.drop_last()) * 10 + (s.last() as int - '0' as int)
    }
}

/// The integer that `s` writes: an optional `+` or `-`, then one or more
/// decimal digits and nothing else.
pub open spec fn parsed_int(s: Seq<char>) -> Option<int> {
    let neg = s.len() > 0 && s[0] == '-';
    let body = if s.len() > 0 && (s[0] == '-' || s[0] == '+') {
        s.skip(1)
    } else {
        s
    };
    if body.len() > 0 && forall|i: int| 0 <= i < body.len() ==> is_digit(#[trigger] body[i]) {
        Some(
            if neg {
                -digits_value(body)
            } else {
                digits_value(body)
            },
        )
    } else {
        None
    }
}

/// What `s.parse::<i32>()` gives: the integer `s` writes, where it fits.
pub open spec fn parsed_i32(s: Seq<char>) -> Option<i32> {
    match parsed_int(s) {
        Some(v) => if i32::MIN <= v <= i32::MAX {
            Some(v as i32)
        } else {
            None
        },
        None => None,
    }
}

/// Calls `str::trim`: white space (Unicode White_Space) removed at both
/// ends.
#[verifier::external_body]
fn trim(s: &str) -> (t: &str)
    ensures
        t@ == trimmed(s@),
{
    s.trim()
}

/// Calls `str::to_lowercase`; the result is named by `lowercased`. On
/// ASCII text it lower-cases the letters A to Z and keeps everything else.
#[verifier::external_body]
fn to_lowercase(s: &str) -> (t: String)
    ensures
        t@ == lowercased(s@),
        is_ascii_text(s@) ==> t@ == s@.map_values(
            |c: char| ascii_lower(c),
        ),
{
    s.to_lowercase()
}

/// Calls `str::parse::<i32>`, an error becoming `None`: an optional sign
/// and decimal digits, in the range of `i32`.
#[verifier::external_body]
fn parse_i32(s: &str) -> (r: Option<i32>)
    ensures
        r == parsed_i32(s@),
{
    s.parse::<i32>().ok()
}

/// A label as the parsers compare it: trimmed, then lower-cased.
pub open spec fn normalized(s: Seq<char>) -> Seq<char> {
    lowercased(trimmed(s))
}

/// Every character of `s` is ASCII.
pub open spec fn is_ascii_text(s: Seq<char>) -> bool {
    forall|i: int| 0 <= i < s.len() ==> (#[trigger] s[i]) < '\u{80}'
}

/// An ASCII label trimmed and lower-cased.
pub open spec fn ascii_normalized(s: Seq<char>) -> Seq<char> {
    trimmed(s).map_values(|c: char| ascii_lower(c))
}

proof fn lemma_trim_start_suffix(s: Seq<char>)
    ensures
        exists|k: int| 0 <= k <= s.len() && trim_start(s) == s.skip(k),
    decreases s.len(),
{
    if s.len() > 0 && is_white_space(s[0]) {
        lemma_trim_start_suffix(s.skip(1));
        let k = choose|k: int| 0 <= k <= s.skip(1).len() && trim_start(s.skip(1)) == s.skip(1).skip(k);
        assert(s.skip(1).skip(k) =~= s.skip(k + 1));
    } else {
        assert(s.skip(0) =~= s);
    }
}

proof fn lemma_trim_end_prefix(s: Seq<char>)
    ensures
        exists|k: int| 0 <= k <= s.len() && trim_end(s) == s.take(k),
    decreases s.len(),
{
    if s.len() > 0 && is_white_space(s.last()) {
        lemma_trim_end_prefix(s.drop_last());
        let k = choose|k: int| 0 <= k <= s.drop_last().len() && trim_end(s.drop_last()) == s.drop_last().take(k);
        assert(s.drop_last().take(k) =~= s.take(k));
    } else {
        assert(s.take(s.len() as int) =~= s);
    }
}

/// Trimming keeps text ASCII.
proof fn lemma_trimmed_ascii(s: Seq<char>)
    requires
        is_ascii_text(s),
    ensures
        is_ascii_text(trimmed(s)),
{
    lemma_trim_start_suffix(s);
    let k = choose|k: int| 0 <= k <= s.len() && trim_start(s) == s.skip(k);
    let a = trim_start(s);
    assert(is_ascii_text(a)) by {
        assert forall|i: int| 0 <= i < a.len() implies (#[trigger] a[i]) < '\u{80}' by {
            assert(a[i] == s[i + k]);
        }
    }
    lemma_trim_end_prefix(a);
    let j = choose|j: int| 0 <= j <= a.len() && trim_end(a) == a.take(j);
    let b = trim_end(a);
    assert forall|i: int| 0 <= i < b.len() implies (#[trigger] b[i]) < '\u{80}' by {
        assert(b[i] == a[i]);
    }
}

/// The label trimmed and lower-cased.
pub fn normalize_label(label: &str) -> (n: String)
    ensures
        n@ == normalized(label@),
        is_ascii_text(label@) ==> n@ == ascii_normalized(label@),
{
    let t = trim(label);
    proof {
        if is_ascii_text(label@) {
            lemma_trimmed_ascii(label@);
        }
    }
    to_lowercase(t)
}

/// Whether the normalized label is `name`.
fn label_is(norm: &String, name: &str) -> (b: bool)
    ensures
        b == (norm@ == name@),
{
    *norm == String::from_str(name)
}

/// Scale index for a normalized label; `fallback` for unknown labels.
pub open spec fn scale_index_for(norm: Seq<char>, fallback: Option<i32>) -> Option<i32> {
    if norm == "chromatic"@ || norm == "0"@ {
        Some(0)
    } else if norm == "major"@ || norm == "1"@ {
        Some(1)
    } else if norm == "minor"@ || norm == "2"@ {
        Some(2)
    } else if norm == "maj penta"@ || norm == "major pentatonic"@ || norm == "3"@ {
        Some(3)
    } else if norm == "min penta"@ || norm == "minor pentatonic"@ || norm == "4"@ {
        Some(4)
    } else if norm == "blues"@ || norm == "5"@ {
        Some(5)
    } else if norm == "custom"@ || norm == "6"@ {
        Some(6)
    } else {
        fallback
    }
}

/// Scale index named by a normalized label, or `fallback`.
pub fn scale_index_from_normalized(norm: &String, fallback: Option<i32>) -> (r: Option<i32>)
    ensures
        r == scale_index_for(norm@, fallback),
{
    if label_is(norm, "chromatic") || label_is(norm, "0") {
        Some(0)
    } else if label_is(norm, "major") || label_is(norm, "1") {
        Some(1)
    } else if label_is(norm, "minor") || label_is(norm, "2") {
        Some(2)
    } else if label_is(norm, "maj penta") || label_is(norm, "major pentatonic") || label_is(
        norm,
        "3",
    ) {
        Some(3)
    } else if label_is(norm, "min penta") || label_is(norm, "minor pentatonic") || label_is(
        norm,
        "4",
    ) {
        Some(4)
    } else if label_is(norm, "blues") || label_is(norm, "5") {
        Some(5)
    } else if label_is(norm, "custom") || label_is(norm, "6") {
        Some(6)
    } else {
        fallback
    }
}

/// Scale index typed as text: a scale name (any case, surrounding blanks
/// ignored) or its number, else the text read as an integer.
pub fn scale_index_from_label(label: &str) -> (r: Option<i32>)
    ensures
        r == scale_index_for(normalized(label@), parsed_i32(label@)),
        is_ascii_text(label@) ==> r == scale_index_for(ascii_normalized(label@), parsed_i32(label@)),
{
    let norm = normalize_label(label);
    let fallback = parse_i32(label);
    scale_index_from_normalized(&norm, fallback)
}

/// Pitch detector index for a normalized label; `fallback` for unknown
/// labels.
pub open spec fn detector_index_for(norm: Seq<char>, fallback: Option<i32>) -> Option<i32> {
    if norm == "yin"@ || norm == "0"@ {
        Some(0)
    } else if norm == "yaapt"@ || norm == "1"@ {
        Some(1)
    } else if norm == "pyin"@ || norm == "2"@ {
        Some(2)
    } else if norm == "mpm"@ || norm == "3"@ {
        Some(3)
    } else if norm == "bitstream"@ || norm == "4"@ {
        Some(4)
    } else {
        fallback
    }
}

/// Pitch detector index named by a normalized label, or `fallback`.
pub fn detector_index_from_normalized(norm: &String, fallback: Option<i32>) -> (r: Option<i32>)
    ensures
        r == detector_index_for(norm@, fallback),
{
    if label_is(norm, "yin") || label_is(norm, "0") {
        Some(0)
    } else if label_is(norm, "yaapt") || label_is(norm, "1") {
        Some(1)
    } else if label_is(norm, "pyin") || label_is(norm, "2") {
        Some(2)
    } else if label_is(norm, "mpm") || label_is(norm, "3") {
        Some(3)
    } else if label_is(norm, "bitstream") || label_is(norm, "4") {
        Some(4)
    } else {
        fallback
    }
}

/// Pitch detector index typed as text: a detector name or its number, else
/// the text read as an integer.
pub fn detector_index_from_label(label: &str) -> (r: Option<i32>)
    ensures
        r == detector_index_for(normalized(label@), parsed_i32(label@)),
        is_ascii_text(label@) ==> r == detector_index_for(ascii_normalized(label@), parsed_i32(label@)),
{
    let norm = normalize_label(label);
    let fallback = parse_i32(label);
    detector_index_from_normalized(&norm, fallback)
}

/// Pitch shifter index for a normalized label; `fallback` for unknown
/// labels.
pub open spec fn shifter_index_for(norm: Seq<char>, fallback: Option<i32>) -> Option<i32> {
    if norm == "auto"@ || norm == "0"@ {
        Some(0)
    } else if norm == "psola"@ || norm == "1"@ {
        Some(1)
    } else if norm == "vocoder"@ || norm == "2"@ {
        Some(2)
    } else if norm == "pvsola"@ || norm == "hybrid"@ || norm == "3"@ {
        Some(3)
    } else {
        fallback
    }
}

/// Pitch shifter index named by a normalized label, or `fallback`.
pub fn shifter_index_from_normalized(norm: &String, fallback: Option<i32>) -> (r: Option<i32>)
    ensures
        r == shifter_index_for(norm@, fallback),
{
    if label_is(norm, "auto") || label_is(norm, "0") {
        Some(0)
    } else if label_is(norm, "psola") || label_is(norm, "1") {
        Some(1)
    } else if label_is(norm, "vocoder") || label_is(norm, "2") {
        Some(2)
    } else if label_is(norm, "pvsola") || label_is(norm, "hybrid") || label_is(norm, "3") {
        Some(3)
    } else {
        fallback
    }
}

/// Pitch shifter index typed as text: a shifter name or its number, else
/// the text read as an integer.
pub fn shifter_index_from_label(label: &str) -> (r: Option<i32>)
    ensures
        r == shifter_index_for(normalized(label@), parsed_i32(label@)),
        is_ascii_text(label@) ==> r == shifter_index_for(ascii_normalized(label@), parsed_i32(label@)),
{
    let norm = normalize_label(label);
    let fallback = parse_i32(label);
    shifter_index_from_normalized(&norm, fallback)
}

/// Drum target index (0 off, then kick, snare, hi-hat, tom, guitar) for a
/// normalized label; nothing else is accepted.
pub open spec fn drum_target_for(norm: Seq<char>) -> Option<u8> {
    if norm == "off"@ || norm == "0"@ {
        Some(0)
    } else if norm == "kick"@ || norm == "1"@ {
        Some(1)
    } else if norm == "snare"@ || norm == "2"@ {
        Some(2)
    } else if norm == "hi-hat"@ || norm == "hihat"@ || norm == "hat"@ || norm == "3"@ {
        Some(3)
    } else if norm == "tom"@ || norm == "4"@ {
        Some(4)
    } else if norm == "guitar"@ || norm == "gtr"@ || norm == "di"@ || norm == "5"@ {
        Some(5)
    } else {
        None
    }
}

/// Drum target index named by a normalized label.
pub fn drum_target_from_normalized(norm: &String) -> (r: Option<u8>)
    ensures
        r == drum_target_for(norm@),
{
    if label_is(norm, "off") || label_is(norm, "0") {
        Some(0)
    } else if label_is(norm, "kick") || label_is(norm, "1") {
        Some(1)
    } else if label_is(norm, "snare") || label_is(norm, "2") {
        Some(2)
    } else if label_is(norm, "hi-hat") || label_is(norm, "hihat") || label_is(norm, "hat")
        || label_is(norm, "3") {
        Some(3)
    } else if label_is(norm, "tom") || label_is(norm, "4") {
        Some(4)
    } else if label_is(norm, "guitar") || label_is(norm, "gtr") || label_is(norm, "di")
        || label_is(norm, "5") {
        Some(5)
    } else {
        None
    }
}

/// Drum target typed as text: a target name (any case, surrounding blanks
/// ignored) or its number.
pub fn drum_target_from_label(label: &str) -> (r: Option<u8>)
    ensures
        r == drum_target_for(normalized(label@)),
        is_ascii_text(label@) ==> r == drum_target_for(ascii_normalized(label@)),
{
    let norm = normalize_label(label);
    drum_target_from_normalized(&norm)
}

/// On/off switch named by a normalized label; `None` when it names neither.
pub open spec fn switch_for(norm: Seq<char>) -> Option<bool> {
    if norm == "on"@ || norm == "1"@ || norm == "true"@ {
        Some(true)
    } else if norm == "off"@ || norm == "0"@ || norm == "false"@ {
        Some(false)
    } else {
        None
    }
}

/// On/off switch typed as text: "on", "1" or "true", "off", "0" or "false"
/// in any case; `None` for other text, which the caller reads as a number.
pub fn switch_from_label(label: &str) -> (r: Option<bool>)
    ensures
        r == switch_for(normalized(label@)),
        is_ascii_text(label@) ==> r == switch_for(ascii_normalized(label@)),
{
    let norm = normalize_label(label);
    if label_is(&norm, "on") || label_is(&norm, "1") || label_is(&norm, "true") {
        Some(true)
    } else if label_is(&norm, "off") || label_is(&norm, "0") || label_is(&norm, "false") {
        Some(false)
    } else {
        None
    }
}

/// Side-chain source named by a normalized label, `true` for external;
/// `None` when it names neither.
pub open spec fn sidechain_external_for(norm: Seq<char>) -> Option<bool> {
    if norm == "internal"@ || norm == "int"@ || norm == "0"@ {
        Some(false)
    } else if norm == "external"@ || norm == "ext"@ || norm == "1"@ {
        Some(true)
    } else {
        None
    }
}

/// Side-chain source typed as text ("internal", "int", "0", "external",
/// "ext", "1", any case); `None` for other text, which the caller reads as
/// a number.
pub fn sidechain_external_from_label(label: &str) -> (r: Option<bool>)
    ensures
        r == sidechain_external_for(normalized(label@)),
        is_ascii_text(label@) ==> r == sidechain_external_for(ascii_normalized(label@)),
{
    let norm = normalize_label(label);
    if label_is(&norm, "internal") || label_is(&norm, "int") || label_is(&norm, "0") {
        Some(false)
    } else if label_is(&norm, "external") || label_is(&norm, "ext") || label_is(&norm, "1") {
        Some(true)
    } else {
        None
    }
}

/// A note number typed as text: the trimmed text read as an integer.
pub fn note_number_from_label(label: &str) -> (r: Option<i32>)
    ensures
        r == parsed_i32(trimmed(label@)),
{
    parse_i32(trim(label))
}

/// ASCII lower case of a character; other characters are left alone.
pub open spec fn ascii_lower(c: char) -> char {
    if 'A' <= c && c <= 'Z' {
        ((c as u32) + 32) as char
    } else {
        c
    }
}

/// `a` and `b` are equal once ASCII letters are lower-cased.
pub open spec fn ascii_case_eq(a: Seq<char>, b: Seq<char>) -> bool {
    &&& a.len() == b.len()
    &&& forall|i: int| 0 <= i < a.len() ==> ascii_lower(#[trigger] a[i]) == ascii_lower(b[i])
}

/// Calls `str::eq_ignore_ascii_case`: the strings match once ASCII letters
/// are lower-cased (other characters must be equal).
#[verifier::external_body]
fn eq_ignore_ascii_case(a: &str, b: &str) -> (r: bool)
    ensures
        r == ascii_case_eq(a@, b@),
{
    a.eq_ignore_ascii_case(b)
}

/// The first pitch class from `k` on whose name matches `t` up to ASCII
/// case.
pub open spec fn first_key_match(t: Seq<char>, k: int) -> Option<i32>
    decreases 12 - k,
{
    if k < 0 || k >= 12 {
        None
    } else if ascii_case_eq(pitch_class_name_spec(k as u8), t) {
        Some(k as i32)
    } else {
        first_key_match(t, k + 1)
    }
}

/// Key (pitch class) for a trimmed label: the first note name it matches
/// up to ASCII case, else `fallback`.
pub open spec fn key_index_for(t: Seq<char>, fallback: Option<i32>) -> Option<i32> {
    match first_key_match(t, 0) {
        Some(k) => Some(k),
        None => fallback,
    }
}

/// Key named by a trimmed label ("C", "c#", "EB", ...), or `fallback`.
pub fn key_index_from_trimmed(t: &str, fallback: Option<i32>) -> (r: Option<i32>)
    ensures
        r == key_index_for(t@, fallback),
{
    let mut k: u8 = 0;
    while k < 12
        invariant
            k <= 12,
            first_key_match(t@, 0) == first_key_match(t@, k as int),
        decreases 12 - k,
    {
        if eq_ignore_ascii_case(pitch_class_name(k), t) {
            return Some(k as i32);
        }
        k += 1;
    }
    fallback
}

/// Key typed as text: a note name (any ASCII case, surrounding blanks
/// ignored), else the text read as an integer.
pub fn key_index_from_label(label: &str) -> (r: Option<i32>)
    ensures
        r == key_index_for(trimmed(label@), parsed_i32(label@)),
{
    let t = trim(label);
    let fallback = parse_i32(label);
    key_index_from_trimmed(t, fallback)
}

/// Text shown for an on/off switch.
pub open spec fn switch_text_spec(on: bool) -> Seq<char> {
    if on {
        seq!['O', 'n']
    } else {
        seq!['O', 'f', 'f']
    }
}

/// Text shown for an on/off switch: "On" or "Off".
pub fn switch_text(on: bool) -> (t: &'static str)
    ensures
        t@ == switch_text_spec(on),
{
    if on {
        proof {
            reveal_strlit("On");
        }
        "On"
    } else {
        proof {
            reveal_strlit("Off");
        }
        "Off"
    }
}

/// The text shown for a switch is ASCII and reads back as the same switch.
pub proof fn lemma_switch_text_round_trip(on: bool)
    ensures
        is_ascii_text(switch_text_spec(on)),
        switch_for(ascii_normalized(switch_text_spec(on))) == Some(on),
{
    reveal_strlit("on");
    reveal_strlit("1");
    reveal_strlit("true");
    reveal_strlit("off");
    let t = switch_text_spec(on);
    assert(trim_start(t) == t);
    assert(trim_end(t) == t);
    if on {
        assert(ascii_normalized(t) =~= seq!['o', 'n']);
        assert("on"@ =~= seq!['o', 'n']);
    } else {
        assert(ascii_normalized(t) =~= seq!['o', 'f', 'f']);
        assert("off"@ =~= seq!['o', 'f', 'f']);
        assert("on"@.len() == 2 && "1"@.len() == 1 && "true"@.len() == 4);
    }
}

/// The decimal digit character of `d` (0 to 9).
pub open spec fn digit_char(d: int) -> char {
    (('0' as u32) + d) as char
}

/// The decimal digits of `n`, most significant first, without leading
/// zeros ("0" for zero).
pub open spec fn digits(n: nat) -> Seq<char>
    decreases n,
{
    if n < 10 {
        seq![digit_char(n as int)]
    } else {
        digits(n / 10).push(digit_char((n % 10) as int))
    }
}

/// The decimal text of `v`: a minus sign for negative numbers, then the
/// digits.
pub open spec fn decimal(v: int) -> Seq<char> {
    if v < 0 {
        seq!['-'] + digits((-v) as nat)
    } else {
        digits(v as nat)
    }
}

/// Formats `v` in decimal (`i32`'s `Display`, through `to_string`).
#[verifier::external_body]
fn decimal_text(v: i32) -> (t: String)
    ensures
        t@ == decimal(v as int),
{
    v.to_string()
}

/// Text shown for scale number `v`: its name, or the number itself.
pub open spec fn scale_text_spec(v: i32) -> Seq<char> {
    match v {
        0 => seq!['C', 'h', 'r', 'o', 'm', 'a', 't', 'i', 'c'],
        1 => seq!['M', 'a', 'j', 'o', 'r'],
        2 => seq!['M', 'i', 'n', 'o', 'r'],
        3 => seq!['M', 'a', 'j', ' ', 'P', 'e', 'n', 't', 'a'],
        4 => seq!['M', 'i', 'n', ' ', 'P', 'e', 'n', 't', 'a'],
        5 => seq!['B', 'l', 'u', 'e', 's'],
        6 => seq!['C', 'u', 's', 't', 'o', 'm'],
        _ => decimal(v as int),
    }
}

/// Text shown for scale number `v`: "Chromatic", "Major", "Minor", "Maj Penta", "Min Penta", "Blues", "Custom", or the number itself.
pub fn scale_text(v: i32) -> (t: String)
    ensures
        t@ == scale_text_spec(v),
{
    match v {
        0 => {
            proof {
                reveal_strlit("Chromatic");
            }
            String::from_str("Chromatic")
        },
        1 => {
            proof {
                reveal_strlit("Major");
            }
            String::from_str("Major")
        },
        2 => {
            proof {
                reveal_strlit("Minor");
            }
            String::from_str("Minor")
        },
        3 => {
            proof {
                reveal_strlit("Maj Penta");
            }
            String::from_str("Maj Penta")
        },
        4 => {
            proof {
                reveal_strlit("Min Penta");
            }
            String::from_str("Min Penta")
        },
        5 => {
            proof {
                reveal_strlit("Blues");
            }
            String::from_str("Blues")
        },
        6 => {
            proof {
                reveal_strlit("Custom");
            }
            String::from_str("Custom")
        },
        _ => decimal_text(v),
    }
}

/// The text shown for each scale is ASCII and reads back as the same number.
pub proof fn lemma_scale_text_round_trip(v: i32, fallback: Option<i32>)
    requires
        0 <= v < 7,
    ensures
        is_ascii_text(scale_text_spec(v)),
        scale_index_for(ascii_normalized(scale_text_spec(v)), fallback) == Some(v),
{
    reveal_strlit("chromatic");
    reveal_strlit("0");
    reveal_strlit("major");
    reveal_strlit("1");
    reveal_strlit("minor");
    reveal_strlit("2");
    reveal_strlit("maj penta");
    reveal_strlit("major pentatonic");
    reveal_strlit("3");
    reveal_strlit("min penta");
    reveal_strlit("minor pentatonic");
    reveal_strlit("4");
    reveal_strlit("blues");
    reveal_strlit("5");
    reveal_strlit("custom");
    reveal_strlit("6");
    assert("chromatic"@ =~= seq!['c', 'h', 'r', 'o', 'm', 'a', 't', 'i', 'c']);
    assert("0"@ =~= seq!['0']);
    assert("0"@[0] == '0');
    assert("major"@ =~= seq!['m', 'a', 'j', 'o', 'r']);
    assert("1"@ =~= seq!['1']);
    assert("1"@[0] == '1');
    assert("minor"@ =~= seq!['m', 'i', 'n', 'o', 'r']);
    assert("2"@ =~= seq!['2']);
    assert("2"@[0] == '2');
    assert("maj penta"@ =~= seq!['m', 'a', 'j', ' ', 'p', 'e', 'n', 't', 'a']);
    assert("major pentatonic"@ =~= seq!['m', 'a', 'j', 'o', 'r', ' ', 'p', 'e', 'n', 't', 'a', 't', 'o', 'n', 'i', 'c']);
    assert("3"@ =~= seq!['3']);
    assert("3"@[0] == '3');
    assert("min penta"@ =~= seq!['m', 'i', 'n', ' ', 'p', 'e', 'n', 't', 'a']);
    assert("minor pentatonic"@ =~= seq!['m', 'i', 'n', 'o', 'r', ' ', 'p', 'e', 'n', 't', 'a', 't', 'o', 'n', 'i', 'c']);
    assert("4"@ =~= seq!['4']);
    assert("4"@[0] == '4');
    assert("blues"@ =~= seq!['b', 'l', 'u', 'e', 's']);
    assert("5"@ =~= seq!['5']);
    assert("5"@[0] == '5');
    assert("custom"@ =~= seq!['c', 'u', 's', 't', 'o', 'm']);
    assert("6"@ =~= seq!['6']);
    assert("6"@[0] == '6');
    let t = scale_text_spec(v);
    assert(trim_start(t) == t);
    assert(trim_end(t) == t);
    if v == 0 {
        assert(ascii_normalized(t) =~= seq!['c', 'h', 'r', 'o', 'm', 'a', 't', 'i', 'c']);
    } else if v == 1 {
        assert(ascii_normalized(t) =~= seq!['m', 'a', 'j', 'o', 'r']);
    } else if v == 2 {
        assert(ascii_normalized(t) =~= seq!['m', 'i', 'n', 'o', 'r']);
    } else if v == 3 {
        assert(ascii_normalized(t) =~= seq!['m', 'a', 'j', ' ', 'p', 'e', 'n', 't', 'a']);
    } else if v == 4 {
        assert(ascii_normalized(t) =~= seq!['m', 'i', 'n', ' ', 'p', 'e', 'n', 't', 'a']);
    } else if v == 5 {
        assert(ascii_normalized(t) =~= seq!['b', 'l', 'u', 'e', 's']);
    } else if v == 6 {
        assert(ascii_normalized(t) =~= seq!['c', 'u', 's', 't', 'o', 'm']);
    }
}

/// Text shown for pitch detector number `v`: its name, or the number itself.
pub open spec fn detector_text_spec(v: i32) -> Seq<char> {
    match v {
        0 => seq!['Y', 'I', 'N'],
        1 => seq!['Y', 'A', 'A', 'P', 'T'],
        2 => seq!['p', 'Y', 'I', 'N'],
        3 => seq!['M', 'P', 'M'],
        4 => seq!['B', 'i', 't', 's', 't', 'r', 'e', 'a', 'm'],
        _ => decimal(v as int),
    }
}

/// Text shown for pitch detector number `v`: "YIN", "YAAPT", "pYIN", "MPM", "Bitstream", or the number itself.
pub fn detector_text(v: i32) -> (t: String)
    ensures
        t@ == detector_text_spec(v),
{
    match v {
        0 => {
            proof {
                reveal_strlit("YIN");
            }
            String::from_str("YIN")
        },
        1 => {
            proof {
                reveal_strlit("YAAPT");
            }
            String::from_str("YAAPT")
        },
        2 => {
            proof {
                reveal_strlit("pYIN");
            }
            String::from_str("pYIN")
        },
        3 => {
            proof {
                reveal_strlit("MPM");
            }
            String::from_str("MPM")
        },
        4 => {
            proof {
                reveal_strlit("Bitstream");
            }
            String::from_str("Bitstream")
        },
        _ => decimal_text(v),
    }
}

/// The text shown for each pitch detector is ASCII and reads back as the same number.
pub proof fn lemma_detector_text_round_trip(v: i32, fallback: Option<i32>)
    requires
        0 <= v < 5,
    ensures
        is_ascii_text(detector_text_spec(v)),
        detector_index_for(ascii_normalized(detector_text_spec(v)), fallback) == Some(v),
{
    reveal_strlit("yin");
    reveal_strlit("0");
    reveal_strlit("yaapt");
    reveal_strlit("1");
    reveal_strlit("pyin");
    reveal_strlit("2");
    reveal_strlit("mpm");
    reveal_strlit("3");
    reveal_strlit("bitstream");
    reveal_strlit("4");
    assert("yin"@ =~= seq!['y', 'i', 'n']);
    assert("0"@ =~= seq!['0']);
    assert("0"@[0] == '0');
    assert("yaapt"@ =~= seq!['y', 'a', 'a', 'p', 't']);
    assert("1"@ =~= seq!['1']);
    assert("1"@[0] == '1');
    assert("pyin"@ =~= seq!['p', 'y', 'i', 'n']);
    assert("2"@ =~= seq!['2']);
    assert("2"@[0] == '2');
    assert("mpm"@ =~= seq!['m', 'p', 'm']);
    assert("3"@ =~= seq!['3']);
    assert("3"@[0] == '3');
    assert("bitstream"@ =~= seq!['b', 'i', 't', 's', 't', 'r', 'e', 'a', 'm']);
    assert("4"@ =~= seq!['4']);
    assert("4"@[0] == '4');
    let t = detector_text_spec(v);
    assert(trim_start(t) == t);
    assert(trim_end(t) == t);
    if v == 0 {
        assert(ascii_normalized(t) =~= seq!['y', 'i', 'n']);
    } else if v == 1 {
        assert(ascii_normalized(t) =~= seq!['y', 'a', 'a', 'p', 't']);
    } else if v == 2 {
        assert(ascii_normalized(t) =~= seq!['p', 'y', 'i', 'n']);
    } else if v == 3 {
        assert(ascii_normalized(t) =~= seq!['m', 'p', 'm']);
    } else if v == 4 {
        assert(ascii_normalized(t) =~= seq!['b', 'i', 't', 's', 't', 'r', 'e', 'a', 'm']);
    }
}

/// Text shown for pitch shifter number `v`: its name, or the number itself.
pub open spec fn shifter_text_spec(v: i32) -> Seq<char> {
    match v {
        0 => seq!['A', 'u', 't', 'o'],
        1 => seq!['P', 'S', 'O', 'L', 'A'],
        2 => seq!['V', 'o', 'c', 'o', 'd', 'e', 'r'],
        3 => seq!['P', 'V', 'S', 'O', 'L', 'A'],
        _ => decimal(v as int),
    }
}

/// Text shown for pitch shifter number `v`: "Auto", "PSOLA", "Vocoder", "PVSOLA", or the number itself.
pub fn shifter_text(v: i32) -> (t: String)
    ensures
        t@ == shifter_text_spec(v),
{
    match v {
        0 => {
            proof {
                reveal_strlit("Auto");
            }
            String::from_str("Auto")
        },
        1 => {
            proof {
                reveal_strlit("PSOLA");
            }
            String::from_str("PSOLA")
        },
        2 => {
            proof {
                reveal_strlit("Vocoder");
            }
            String::from_str("Vocoder")
        },
        3 => {
            proof {
                reveal_strlit("PVSOLA");
            }
            String::from_str("PVSOLA")
        },
        _ => decimal_text(v),
    }
}

/// The text shown for each pitch shifter is ASCII and reads back as the same number.
pub proof fn lemma_shifter_text_round_trip(v: i32, fallback: Option<i32>)
    requires
        0 <= v < 4,
    ensures
        is_ascii_text(shifter_text_spec(v)),
        shifter_index_for(ascii_normalized(shifter_text_spec(v)), fallback) == Some(v),
{
    reveal_strlit("auto");
    reveal_strlit("0");
    reveal_strlit("psola");
    reveal_strlit("1");
    reveal_strlit("vocoder");
    reveal_strlit("2");
    reveal_strlit("pvsola");
    reveal_strlit("hybrid");
    reveal_strlit("3");
    assert("auto"@ =~= seq!['a', 'u', 't', 'o']);
    assert("0"@ =~= seq!['0']);
    assert("0"@[0] == '0');
    assert("psola"@ =~= seq!['p', 's', 'o', 'l', 'a']);
    assert("1"@ =~= seq!['1']);
    assert("1"@[0] == '1');
    assert("vocoder"@ =~= seq!['v', 'o', 'c', 'o', 'd', 'e', 'r']);
    assert("2"@ =~= seq!['2']);
    assert("2"@[0] == '2');
    assert("pvsola"@ =~= seq!['p', 'v', 's', 'o', 'l', 'a']);
    assert("hybrid"@ =~= seq!['h', 'y', 'b', 'r', 'i', 'd']);
    assert("3"@ =~= seq!['3']);
    assert("3"@[0] == '3');
    let t = shifter_text_spec(v);
    assert(trim_start(t) == t);
    assert(trim_end(t) == t);
    if v == 0 {
        assert(ascii_normalized(t) =~= seq!['a', 'u', 't', 'o']);
    } else if v == 1 {
        assert(ascii_normalized(t) =~= seq!['p', 's', 'o', 'l', 'a']);
    } else if v == 2 {
        assert(ascii_normalized(t) =~= seq!['v', 'o', 'c', 'o', 'd', 'e', 'r']);
    } else if v == 3 {
        assert(ascii_normalized(t) =~= seq!['p', 'v', 's', 'o', 'l', 'a']);
    }
}

/// Text shown for drum target number `v`: "Kick", "Snare", "Hi-Hat",
/// "Tom" or "Guitar" for 1 to 5, "Off" for anything else.
pub open spec fn drum_target_text_spec(v: i32) -> Seq<char> {
    match v {
        1 => seq!['K', 'i', 'c', 'k'],
        2 => seq!['S', 'n', 'a', 'r', 'e'],
        3 => seq!['H', 'i', '-', 'H', 'a', 't'],
        4 => seq!['T', 'o', 'm'],
        5 => seq!['G', 'u', 'i', 't', 'a', 'r'],
        _ => seq!['O', 'f', 'f'],
    }
}

/// Text shown for drum target number `v` (see `drum_target_text_spec`).
pub fn drum_target_text(v: i32) -> (t: &'static str)
    ensures
        t@ == drum_target_text_spec(v),
{
    match v {
        1 => {
            proof {
                reveal_strlit("Kick");
            }
            "Kick"
        },
        2 => {
            proof {
                reveal_strlit("Snare");
            }
            "Snare"
        },
        3 => {
            proof {
                reveal_strlit("Hi-Hat");
            }
            "Hi-Hat"
        },
        4 => {
            proof {
                reveal_strlit("Tom");
            }
            "Tom"
        },
        5 => {
            proof {
                reveal_strlit("Guitar");
            }
            "Guitar"
        },
        _ => {
            proof {
                reveal_strlit("Off");
            }
            "Off"
        },
    }
}

/// The text shown for each drum target is ASCII and reads back as the
/// same target.
pub proof fn lemma_drum_target_text_round_trip(v: i32)
    requires
        0 <= v < 6,
    ensures
        is_ascii_text(drum_target_text_spec(v)),
        drum_target_for(ascii_normalized(drum_target_text_spec(v))) == Some(v as u8),
{
    reveal_strlit("off");
    reveal_strlit("0");
    reveal_strlit("kick");
    reveal_strlit("1");
    reveal_strlit("snare");
    reveal_strlit("2");
    reveal_strlit("hi-hat");
    reveal_strlit("hihat");
    reveal_strlit("hat");
    reveal_strlit("3");
    reveal_strlit("tom");
    reveal_strlit("4");
    reveal_strlit("guitar");
    reveal_strlit("gtr");
    reveal_strlit("di");
    reveal_strlit("5");
    assert("off"@ =~= seq!['o', 'f', 'f']);
    assert("0"@ =~= seq!['0']);
    assert("0"@[0] == '0');
    assert("kick"@ =~= seq!['k', 'i', 'c', 'k']);
    assert("1"@ =~= seq!['1']);
    assert("1"@[0] == '1');
    assert("snare"@ =~= seq!['s', 'n', 'a', 'r', 'e']);
    assert("2"@ =~= seq!['2']);
    assert("2"@[0] == '2');
    assert("hi-hat"@ =~= seq!['h', 'i', '-', 'h', 'a', 't']);
    assert("hihat"@ =~= seq!['h', 'i', 'h', 'a', 't']);
    assert("hat"@ =~= seq!['h', 'a', 't']);
    assert("3"@ =~= seq!['3']);
    assert("3"@[0] == '3');
    assert("tom"@ =~= seq!['t', 'o', 'm']);
    assert("4"@ =~= seq!['4']);
    assert("4"@[0] == '4');
    assert("guitar"@ =~= seq!['g', 'u', 'i', 't', 'a', 'r']);
    assert("gtr"@ =~= seq!['g', 't', 'r']);
    assert("di"@ =~= seq!['d', 'i']);
    assert("5"@ =~= seq!['5']);
    assert("5"@[0] == '5');
    let t = drum_target_text_spec(v);
    assert(trim_start(t) == t);
    assert(trim_end(t) == t);
    if v == 0 {
        assert(ascii_normalized(t) =~= seq!['o', 'f', 'f']);
    } else if v == 1 {
        assert(ascii_normalized(t) =~= seq!['k', 'i', 'c', 'k']);
    } else if v == 2 {
        assert(ascii_normalized(t) =~= seq!['s', 'n', 'a', 'r', 'e']);
    } else if v == 3 {
        assert(ascii_normalized(t) =~= seq!['h', 'i', '-', 'h', 'a', 't']);
    } else if v == 4 {
        assert(ascii_normalized(t) =~= seq!['t', 'o', 'm']);
    } else if v == 5 {
        assert(ascii_normalized(t) =~= seq!['g', 'u', 'i', 't', 'a', 'r']);
    }
}

/// Text shown for the side-chain source.
pub open spec fn sidechain_text_spec(external: bool) -> Seq<char> {
    if external {
        seq!['E', 'x', 't', 'e', 'r', 'n', 'a', 'l']
    } else {
        seq!['I', 'n', 't', 'e', 'r', 'n', 'a', 'l']
    }
}

/// Text shown for the side-chain source: "External" or "Internal".
pub fn sidechain_text(external: bool) -> (t: &'static str)
    ensures
        t@ == sidechain_text_spec(external),
{
    if external {
        proof {
            reveal_strlit("External");
        }
        "External"
    } else {
        proof {
            reveal_strlit("Internal");
        }
        "Internal"
    }
}

/// The text shown for the side-chain source is ASCII and reads back as
/// the same source.
pub proof fn lemma_sidechain_text_round_trip(external: bool)
    ensures
        is_ascii_text(sidechain_text_spec(external)),
        sidechain_external_for(ascii_normalized(sidechain_text_spec(external))) == Some(external),
{
    reveal_strlit("internal");
    reveal_strlit("int");
    reveal_strlit("0");
    reveal_strlit("external");
    reveal_strlit("ext");
    reveal_strlit("1");
    assert("internal"@ =~= seq!['i', 'n', 't', 'e', 'r', 'n', 'a', 'l']);
    assert("int"@ =~= seq!['i', 'n', 't']);
    assert("0"@ =~= seq!['0']);
    assert("0"@[0] == '0');
    assert("external"@ =~= seq!['e', 'x', 't', 'e', 'r', 'n', 'a', 'l']);
    assert("ext"@ =~= seq!['e', 'x', 't']);
    assert("1"@ =~= seq!['1']);
    assert("1"@[0] == '1');
    let t = sidechain_text_spec(external);
    assert(trim_start(t) == t);
    assert(trim_end(t) == t);
    if external {
        assert(ascii_normalized(t) =~= seq!['e', 'x', 't', 'e', 'r', 'n', 'a', 'l']);
    } else {
        assert(ascii_normalized(t) =~= seq!['i', 'n', 't', 'e', 'r', 'n', 'a', 'l']);
    }
}

/// Text shown for key number `v`: its note name for 0 to 11, "?" otherwise.
pub open spec fn key_text_spec(v: i32) -> Seq<char> {
    if 0 <= v < 12 {
        pitch_class_name_spec(v as u8)
    } else {
        seq!['?']
    }
}

/// Text shown for key number `v` (see `key_text_spec`).
pub fn key_text(v: i32) -> (t: &'static str)
    ensures
        t@ == key_text_spec(v),
{
    if 0 <= v && v < 12 {
        pitch_class_name(v as u8)
    } else {
        proof {
            reveal_strlit("?");
        }
        "?"
    }
}

/// No two note names match up to ASCII case.
proof fn lemma_key_names_distinct(j: int, k: int)
    requires
        0 <= j < 12,
        0 <= k < 12,
        j != k,
    ensures
        !ascii_case_eq(pitch_class_name_spec(j as u8), pitch_class_name_spec(k as u8)),
{
    let a = pitch_class_name_spec(j as u8);
    let b = pitch_class_name_spec(k as u8);
    if a.len() == b.len() {
        assert(ascii_lower(a[0]) != ascii_lower(b[0]));
    }
}

proof fn lemma_first_key_match(t: Seq<char>, k: int, v: int)
    requires
        0 <= k <= v < 12,
        t == pitch_class_name_spec(v as u8),
    ensures
        first_key_match(t, k) == Some(v as i32),
    decreases v - k,
{
    if k < v {
        lemma_key_names_distinct(k, v);
        lemma_first_key_match(t, k + 1, v);
    } else {
        assert(ascii_case_eq(t, t));
    }
}

/// The text shown for each key reads back as the same key.
pub proof fn lemma_key_text_round_trip(v: i32, fallback: Option<i32>)
    requires
        0 <= v < 12,
    ensures
        key_index_for(trimmed(key_text_spec(v)), fallback) == Some(v),
{
    let t = key_text_spec(v);
    assert(trim_start(t) == t);
    assert(trim_end(t) == t);
    lemma_first_key_match(t, 0, v as int);
}

/// Scale names keep to their family: a label that starts with "min" can
/// only name a minor scale (natural minor or minor pentatonic), one that
/// starts with "maj" only a major scale (major or major pentatonic), and
/// one that ends with "penta" or "pentatonic" only a pentatonic scale;
/// any other reading of such a label is the numeric fallback.
pub proof fn lemma_scale_label_families(norm: Seq<char>, fallback: Option<i32>)
    ensures
        "min"@.is_prefix_of(norm) ==> ({
            let r = scale_index_for(norm, fallback);
            r == fallback || r == Some(2i32) || r == Some(4i32)
        }),
        "maj"@.is_prefix_of(norm) ==> ({
            let r = scale_index_for(norm, fallback);
            r == fallback || r == Some(1i32) || r == Some(3i32)
        }),
        "penta"@.is_suffix_of(norm) || "pentatonic"@.is_suffix_of(norm) ==> ({
            let r = scale_index_for(norm, fallback);
            r == fallback || r == Some(3i32) || r == Some(4i32)
        }),
{
    reveal_strlit("0");
    reveal_strlit("1");
    reveal_strlit("2");
    reveal_strlit("3");
    reveal_strlit("4");
    reveal_strlit("5");
    reveal_strlit("6");
    reveal_strlit("blues");
    reveal_strlit("chromatic");
    reveal_strlit("custom");
    reveal_strlit("maj");
    reveal_strlit("maj penta");
    reveal_strlit("major");
    reveal_strlit("major pentatonic");
    reveal_strlit("min");
    reveal_strlit("min penta");
    reveal_strlit("minor");
    reveal_strlit("minor pentatonic");
    reveal_strlit("penta");
    reveal_strlit("pentatonic");
    assert("0"@ =~= seq!['0']);
    assert("0"@[0] == '0');
    assert("1"@ =~= seq!['1']);
    assert("1"@[0] == '1');
    assert("2"@ =~= seq!['2']);
    assert("2"@[0] == '2');
    assert("3"@ =~= seq!['3']);
    assert("3"@[0] == '3');
    assert("4"@ =~= seq!['4']);
    assert("4"@[0] == '4');
    assert("5"@ =~= seq!['5']);
    assert("5"@[0] == '5');
    assert("6"@ =~= seq!['6']);
    assert("6"@[0] == '6');
    assert("blues"@ =~= seq!['b', 'l', 'u', 'e', 's']);
    assert("chromatic"@ =~= seq!['c', 'h', 'r', 'o', 'm', 'a', 't', 'i', 'c']);
    assert("custom"@ =~= seq!['c', 'u', 's', 't', 'o', 'm']);
    assert("maj"@ =~= seq!['m', 'a', 'j']);
    assert("maj penta"@ =~= seq!['m', 'a', 'j', ' ', 'p', 'e', 'n', 't', 'a']);
    assert("major"@ =~= seq!['m', 'a', 'j', 'o', 'r']);
    assert("major pentatonic"@ =~= seq!['m', 'a', 'j', 'o', 'r', ' ', 'p', 'e', 'n', 't', 'a', 't', 'o', 'n', 'i', 'c']);
    assert("min"@ =~= seq!['m', 'i', 'n']);
    assert("min penta"@ =~= seq!['m', 'i', 'n', ' ', 'p', 'e', 'n', 't', 'a']);
    assert("minor"@ =~= seq!['m', 'i', 'n', 'o', 'r']);
    assert("minor pentatonic"@ =~= seq!['m', 'i', 'n', 'o', 'r', ' ', 'p', 'e', 'n', 't', 'a', 't', 'o', 'n', 'i', 'c']);
    assert("penta"@ =~= seq!['p', 'e', 'n', 't', 'a']);
    assert("pentatonic"@ =~= seq!['p', 'e', 'n', 't', 'a', 't', 'o', 'n', 'i', 'c']);
    let r = scale_index_for(norm, fallback);
    if r != fallback {
        if r == Some(0i32) {
            assert(norm == "chromatic"@ || norm == "0"@);
            if norm == "chromatic"@ {
                assert(norm.subrange(0, 3)[0] == 'c');
                assert(norm.subrange(0, 3)[0] == 'c');
                assert(norm.subrange(4, 9)[0] == 'm');
            }
        } else if r == Some(1i32) {
            assert(norm == "major"@ || norm == "1"@);
            if norm == "major"@ {
                assert(norm.subrange(0, 3)[1] == 'a');
                assert(norm.subrange(0, 5)[0] == 'm');
            }
        } else if r == Some(2i32) {
            assert(norm == "minor"@ || norm == "2"@);
            if norm == "minor"@ {
                assert(norm.subrange(0, 3)[1] == 'i');
                assert(norm.subrange(0, 5)[0] == 'm');
            }
        } else if r == Some(3i32) {
            assert(norm == "maj penta"@ || norm == "major pentatonic"@ || norm == "3"@);
            if norm == "maj penta"@ {
                assert(norm.subrange(0, 3)[1] == 'a');
            }
            if norm == "major pentatonic"@ {
                assert(norm.subrange(0, 3)[1] == 'a');
            }
        } else if r == Some(4i32) {
            assert(norm == "min penta"@ || norm == "minor pentatonic"@ || norm == "4"@);
            if norm == "min penta"@ {
                assert(norm.subrange(0, 3)[1] == 'i');
            }
            if norm == "minor pentatonic"@ {
                assert(norm.subrange(0, 3)[1] == 'i');
            }
        } else if r == Some(5i32) {
            assert(norm == "blues"@ || norm == "5"@);
            if norm == "blues"@ {
                assert(norm.subrange(0, 3)[0] == 'b');
                assert(norm.subrange(0, 3)[0] == 'b');
                assert(norm.subrange(0, 5)[0] == 'b');
            }
        } else if r == Some(6i32) {
            assert(norm == "custom"@ || norm == "6"@);
            if norm == "custom"@ {
                assert(norm.subrange(0, 3)[0] == 'c');
                assert(norm.subrange(0, 3)[0] == 'c');
                assert(norm.subrange(1, 6)[0] == 'u');
            }
        }
    }
}

/// Every scale number, written in decimal, reads as that scale.
pub proof fn lemma_scale_number_label(v: i32, fallback: Option<i32>)
    requires
        0 <= v < 7,
    ensures
        scale_index_for(decimal(v as int), fallback) == Some(v),
{
    reveal_strlit("0");
    reveal_strlit("1");
    reveal_strlit("2");
    reveal_strlit("3");
    reveal_strlit("4");
    reveal_strlit("5");
    reveal_strlit("6");
    reveal_strlit("chromatic");
    reveal_strlit("major");
    reveal_strlit("minor");
    reveal_strlit("maj penta");
    reveal_strlit("major pentatonic");
    reveal_strlit("min penta");
    reveal_strlit("minor pentatonic");
    reveal_strlit("blues");
    reveal_strlit("custom");
    assert("0"@ =~= seq!['0']);
    assert("0"@[0] == '0');
    assert("1"@ =~= seq!['1']);
    assert("1"@[0] == '1');
    assert("2"@ =~= seq!['2']);
    assert("2"@[0] == '2');
    assert("3"@ =~= seq!['3']);
    assert("3"@[0] == '3');
    assert("4"@ =~= seq!['4']);
    assert("4"@[0] == '4');
    assert("5"@ =~= seq!['5']);
    assert("5"@[0] == '5');
    assert("6"@ =~= seq!['6']);
    assert("6"@[0] == '6');
    assert("chromatic"@ =~= seq!['c', 'h', 'r', 'o', 'm', 'a', 't', 'i', 'c']);
    assert("major"@ =~= seq!['m', 'a', 'j', 'o', 'r']);
    assert("minor"@ =~= seq!['m', 'i', 'n', 'o', 'r']);
    assert("maj penta"@ =~= seq!['m', 'a', 'j', ' ', 'p', 'e', 'n', 't', 'a']);
    assert("major pentatonic"@ =~= seq!['m', 'a', 'j', 'o', 'r', ' ', 'p', 'e', 'n', 't', 'a', 't', 'o', 'n', 'i', 'c']);
    assert("min penta"@ =~= seq!['m', 'i', 'n', ' ', 'p', 'e', 'n', 't', 'a']);
    assert("minor pentatonic"@ =~= seq!['m', 'i', 'n', 'o', 'r', ' ', 'p', 'e', 'n', 't', 'a', 't', 'o', 'n', 'i', 'c']);
    assert("blues"@ =~= seq!['b', 'l', 'u', 'e', 's']);
    assert("custom"@ =~= seq!['c', 'u', 's', 't', 'o', 'm']);
    assert(decimal(v as int) =~= seq![digit_char(v as int)]);
    if v == 0 {
        assert(digit_char(v as int) == '0');
        assert(decimal(v as int) =~= "0"@);
    } else if v == 1 {
        assert(digit_char(v as int) == '1');
        assert(decimal(v as int) =~= "1"@);
    } else if v == 2 {
        assert(digit_char(v as int) == '2');
        assert(decimal(v as int) =~= "2"@);
    } else if v == 3 {
        assert(digit_char(v as int) == '3');
        assert(decimal(v as int) =~= "3"@);
    } else if v == 4 {
        assert(digit_char(v as int) == '4');
        assert(decimal(v as int) =~= "4"@);
    } else if v == 5 {
        assert(digit_char(v as int) == '5');
        assert(decimal(v as int) =~= "5"@);
    } else if v == 6 {
        assert(digit_char(v as int) == '6');
        assert(decimal(v as int) =~= "6"@);
    }
}

/// Every pitch detector number, written in decimal, reads as that pitch detector.
pub proof fn lemma_detector_number_label(v: i32, fallback: Option<i32>)
    requires
        0 <= v < 5,
    ensures
        detector_index_for(decimal(v as int), fallback) == Some(v),
{
    reveal_strlit("0");
    reveal_strlit("1");
    reveal_strlit("2");
    reveal_strlit("3");
    reveal_strlit("4");
    reveal_strlit("yin");
    reveal_strlit("yaapt");
    reveal_strlit("pyin");
    reveal_strlit("mpm");
    reveal_strlit("bitstream");
    assert("0"@ =~= seq!['0']);
    assert("0"@[0] == '0');
    assert("1"@ =~= seq!['1']);
    assert("1"@[0] == '1');
    assert("2"@ =~= seq!['2']);
    assert("2"@[0] == '2');
    assert("3"@ =~= seq!['3']);
    assert("3"@[0] == '3');
    assert("4"@ =~= seq!['4']);
    assert("4"@[0] == '4');
    assert("yin"@ =~= seq!['y', 'i', 'n']);
    assert("yaapt"@ =~= seq!['y', 'a', 'a', 'p', 't']);
    assert("pyin"@ =~= seq!['p', 'y', 'i', 'n']);
    assert("mpm"@ =~= seq!['m', 'p', 'm']);
    assert("bitstream"@ =~= seq!['b', 'i', 't', 's', 't', 'r', 'e', 'a', 'm']);
    assert(decimal(v as int) =~= seq![digit_char(v as int)]);
    if v == 0 {
        assert(digit_char(v as int) == '0');
        assert(decimal(v as int) =~= "0"@);
    } else if v == 1 {
        assert(digit_char(v as int) == '1');
        assert(decimal(v as int) =~= "1"@);
    } else if v == 2 {
        assert(digit_char(v as int) == '2');
        assert(decimal(v as int) =~= "2"@);
    } else if v == 3 {
        assert(digit_char(v as int) == '3');
        assert(decimal(v as int) =~= "3"@);
    } else if v == 4 {
        assert(digit_char(v as int) == '4');
        assert(decimal(v as int) =~= "4"@);
    }
}

/// Every pitch shifter number, written in decimal, reads as that pitch shifter.
pub proof fn lemma_shifter_number_label(v: i32, fallback: Option<i32>)
    requires
        0 <= v < 4,
    ensures
        shifter_index_for(decimal(v as int), fallback) == Some(v),
{
    reveal_strlit("0");
    reveal_strlit("1");
    reveal_strlit("2");
    reveal_strlit("3");
    reveal_strlit("auto");
    reveal_strlit("psola");
    reveal_strlit("vocoder");
    reveal_strlit("pvsola");
    reveal_strlit("hybrid");
    assert("0"@ =~= seq!['0']);
    assert("0"@[0] == '0');
    assert("1"@ =~= seq!['1']);
    assert("1"@[0] == '1');
    assert("2"@ =~= seq!['2']);
    assert("2"@[0] == '2');
    assert("3"@ =~= seq!['3']);
    assert("3"@[0] == '3');
    assert("auto"@ =~= seq!['a', 'u', 't', 'o']);
    assert("psola"@ =~= seq!['p', 's', 'o', 'l', 'a']);
    assert("vocoder"@ =~= seq!['v', 'o', 'c', 'o', 'd', 'e', 'r']);
    assert("pvsola"@ =~= seq!['p', 'v', 's', 'o', 'l', 'a']);
    assert("hybrid"@ =~= seq!['h', 'y', 'b', 'r', 'i', 'd']);
    assert(decimal(v as int) =~= seq![digit_char(v as int)]);
    if v == 0 {
        assert(digit_char(v as int) == '0');
        assert(decimal(v as int) =~= "0"@);
    } else if v == 1 {
        assert(digit_char(v as int) == '1');
        assert(decimal(v as int) =~= "1"@);
    } else if v == 2 {
        assert(digit_char(v as int) == '2');
        assert(decimal(v as int) =~= "2"@);
    } else if v == 3 {
        assert(digit_char(v as int) == '3');
        assert(decimal(v as int) =~= "3"@);
    }
}

/// Every drum target number, written in decimal, reads as that drum target.
pub proof fn lemma_drum_target_number_label(v: i32)
    requires
        0 <= v < 6,
    ensures
        drum_target_for(decimal(v as int)) == Some(v as u8),
{
    reveal_strlit("0");
    reveal_strlit("1");
    reveal_strlit("2");
    reveal_strlit("3");
    reveal_strlit("4");
    reveal_strlit("5");
    reveal_strlit("off");
    reveal_strlit("kick");
    reveal_strlit("snare");
    reveal_strlit("hi-hat");
    reveal_strlit("hihat");
    reveal_strlit("hat");
    reveal_strlit("tom");
    reveal_strlit("guitar");
    reveal_strlit("gtr");
    reveal_strlit("di");
    assert("0"@ =~= seq!['0']);
    assert("0"@[0] == '0');
    assert("1"@ =~= seq!['1']);
    assert("1"@[0] == '1');
    assert("2"@ =~= seq!['2']);
    assert("2"@[0] == '2');
    assert("3"@ =~= seq!['3']);
    assert("3"@[0] == '3');
    assert("4"@ =~= seq!['4']);
    assert("4"@[0] == '4');
    assert("5"@ =~= seq!['5']);
    assert("5"@[0] == '5');
    assert("off"@ =~= seq!['o', 'f', 'f']);
    assert("kick"@ =~= seq!['k', 'i', 'c', 'k']);
    assert("snare"@ =~= seq!['s', 'n', 'a', 'r', 'e']);
    assert("hi-hat"@ =~= seq!['h', 'i', '-', 'h', 'a', 't']);
    assert("hihat"@ =~= seq!['h', 'i', 'h', 'a', 't']);
    assert("hat"@ =~= seq!['h', 'a', 't']);
    assert("tom"@ =~= seq!['t', 'o', 'm']);
    assert("guitar"@ =~= seq!['g', 'u', 'i', 't', 'a', 'r']);
    assert("gtr"@ =~= seq!['g', 't', 'r']);
    assert("di"@ =~= seq!['d', 'i']);
    assert(decimal(v as int) =~= seq![digit_char(v as int)]);
    if v == 0 {
        assert(digit_char(v as int) == '0');
        assert(decimal(v as int) =~= "0"@);
    } else if v == 1 {
        assert(digit_char(v as int) == '1');
        assert(decimal(v as int) =~= "1"@);
    } else if v == 2 {
        assert(digit_char(v as int) == '2');
        assert(decimal(v as int) =~= "2"@);
    } else if v == 3 {
        assert(digit_char(v as int) == '3');
        assert(decimal(v as int) =~= "3"@);
    } else if v == 4 {
        assert(digit_char(v as int) == '4');
        assert(decimal(v as int) =~= "4"@);
    } else if v == 5 {
        assert(digit_char(v as int) == '5');
        assert(decimal(v as int) =~= "5"@);
    }
}

/// A scale chosen by name has the character its name says: a name that
/// starts with "min" selects a scale with a minor third (3 semitones up)
/// and no major third, one that starts with "maj" a scale with a major
/// third (4 semitones up) and no minor third, and one that ends in "penta"
/// or "pentatonic" a scale without semitone steps.
pub proof fn lemma_scale_names_mean_their_scales(norm: Seq<char>, fallback: Option<i32>)
    ensures
        "min"@.is_prefix_of(norm) && scale_index_for(norm, fallback) != fallback ==> ({
            let scale = scale_from_param_spec(scale_index_for(norm, fallback)->0);
            is_scale_degree(scale, 3) && !is_scale_degree(scale, 4)
        }),
        "maj"@.is_prefix_of(norm) && scale_index_for(norm, fallback) != fallback ==> ({
            let scale = scale_from_param_spec(scale_index_for(norm, fallback)->0);
            is_scale_degree(scale, 4) && !is_scale_degree(scale, 3)
        }),
        ("penta"@.is_suffix_of(norm) || "pentatonic"@.is_suffix_of(norm)) && scale_index_for(norm, fallback)
            != fallback ==> ({
            let scale = scale_from_param_spec(scale_index_for(norm, fallback)->0);
            forall|d: int| 0 <= d < 11 && #[trigger] is_scale_degree(scale, d) ==> !is_scale_degree(scale, d + 1)
        }),
{
    lemma_scale_label_families(norm, fallback);
}

/// The only labels that read as a scale are its shown name (in any
/// case), its number, and "major pentatonic" for Maj Penta; "minor pentatonic" for Min Penta.
pub proof fn lemma_scale_labels_closed(norm: Seq<char>, fallback: Option<i32>, v: i32)
    requires
        scale_index_for(norm, fallback) == Some(v),
        Some(v) != fallback,
    ensures
        0 <= v < 7,
        norm == ascii_normalized(scale_text_spec(v)) || norm == decimal(v as int) || (v == 3 && norm == "major pentatonic"@) || (v == 4 && norm == "minor pentatonic"@),
{
    reveal_strlit("0");
    reveal_strlit("1");
    reveal_strlit("2");
    reveal_strlit("3");
    reveal_strlit("4");
    reveal_strlit("5");
    reveal_strlit("6");
    reveal_strlit("chromatic");
    reveal_strlit("major");
    reveal_strlit("minor");
    reveal_strlit("maj penta");
    reveal_strlit("min penta");
    reveal_strlit("blues");
    reveal_strlit("custom");
    reveal_strlit("major pentatonic");
    reveal_strlit("minor pentatonic");
    assert("0"@ =~= seq!['0']);
    assert("1"@ =~= seq!['1']);
    assert("2"@ =~= seq!['2']);
    assert("3"@ =~= seq!['3']);
    assert("4"@ =~= seq!['4']);
    assert("5"@ =~= seq!['5']);
    assert("6"@ =~= seq!['6']);
    assert("chromatic"@ =~= seq!['c', 'h', 'r', 'o', 'm', 'a', 't', 'i', 'c']);
    assert("major"@ =~= seq!['m', 'a', 'j', 'o', 'r']);
    assert("minor"@ =~= seq!['m', 'i', 'n', 'o', 'r']);
    assert("maj penta"@ =~= seq!['m', 'a', 'j', ' ', 'p', 'e', 'n', 't', 'a']);
    assert("min penta"@ =~= seq!['m', 'i', 'n', ' ', 'p', 'e', 'n', 't', 'a']);
    assert("blues"@ =~= seq!['b', 'l', 'u', 'e', 's']);
    assert("custom"@ =~= seq!['c', 'u', 's', 't', 'o', 'm']);
    assert("major pentatonic"@ =~= seq!['m', 'a', 'j', 'o', 'r', ' ', 'p', 'e', 'n', 't', 'a', 't', 'o', 'n', 'i', 'c']);
    assert("minor pentatonic"@ =~= seq!['m', 'i', 'n', 'o', 'r', ' ', 'p', 'e', 'n', 't', 'a', 't', 'o', 'n', 'i', 'c']);
    if v == 0 {
        let txt = scale_text_spec(v);
        assert(trim_start(txt) == txt);
        assert(trim_end(txt) == txt);
        assert(ascii_normalized(txt) =~= seq!['c', 'h', 'r', 'o', 'm', 'a', 't', 'i', 'c']);
        assert(digit_char(v as int) == '0');
        assert(decimal(v as int) =~= "0"@);
    } else if v == 1 {
        let txt = scale_text_spec(v);
        assert(trim_start(txt) == txt);
        assert(trim_end(txt) == txt);
        assert(ascii_normalized(txt) =~= seq!['m', 'a', 'j', 'o', 'r']);
        assert(digit_char(v as int) == '1');
        assert(decimal(v as int) =~= "1"@);
    } else if v == 2 {
        let txt = scale_text_spec(v);
        assert(trim_start(txt) == txt);
        assert(trim_end(txt) == txt);
        assert(ascii_normalized(txt) =~= seq!['m', 'i', 'n', 'o', 'r']);
        assert(digit_char(v as int) == '2');
        assert(decimal(v as int) =~= "2"@);
    } else if v == 3 {
        let txt = scale_text_spec(v);
        assert(trim_start(txt) == txt);
        assert(trim_end(txt) == txt);
        assert(ascii_normalized(txt) =~= seq!['m', 'a', 'j', ' ', 'p', 'e', 'n', 't', 'a']);
        assert(digit_char(v as int) == '3');
        assert(decimal(v as int) =~= "3"@);
    } else if v == 4 {
        let txt = scale_text_spec(v);
        assert(trim_start(txt) == txt);
        assert(trim_end(txt) == txt);
        assert(ascii_normalized(txt) =~= seq!['m', 'i', 'n', ' ', 'p', 'e', 'n', 't', 'a']);
        assert(digit_char(v as int) == '4');
        assert(decimal(v as int) =~= "4"@);
    } else if v == 5 {
        let txt = scale_text_spec(v);
        assert(trim_start(txt) == txt);
        assert(trim_end(txt) == txt);
        assert(ascii_normalized(txt) =~= seq!['b', 'l', 'u', 'e', 's']);
        assert(digit_char(v as int) == '5');
        assert(decimal(v as int) =~= "5"@);
    } else if v == 6 {
        let txt = scale_text_spec(v);
        assert(trim_start(txt) == txt);
        assert(trim_end(txt) == txt);
        assert(ascii_normalized(txt) =~= seq!['c', 'u', 's', 't', 'o', 'm']);
        assert(digit_char(v as int) == '6');
        assert(decimal(v as int) =~= "6"@);
    }
}

/// The only labels that read as a pitch detector are its shown name (in any
/// case), its number.
pub proof fn lemma_detector_labels_closed(norm: Seq<char>, fallback: Option<i32>, v: i32)
    requires
        detector_index_for(norm, fallback) == Some(v),
        Some(v) != fallback,
    ensures
        0 <= v < 5,
        norm == ascii_normalized(detector_text_spec(v)) || norm == decimal(v as int),
{
    reveal_strlit("0");
    reveal_strlit("1");
    reveal_strlit("2");
    reveal_strlit("3");
    reveal_strlit("4");
    reveal_strlit("yin");
    reveal_strlit("yaapt");
    reveal_strlit("pyin");
    reveal_strlit("mpm");
    reveal_strlit("bitstream");
    assert("0"@ =~= seq!['0']);
    assert("1"@ =~= seq!['1']);
    assert("2"@ =~= seq!['2']);
    assert("3"@ =~= seq!['3']);
    assert("4"@ =~= seq!['4']);
    assert("yin"@ =~= seq!['y', 'i', 'n']);
    assert("yaapt"@ =~= seq!['y', 'a', 'a', 'p', 't']);
    assert("pyin"@ =~= seq!['p', 'y', 'i', 'n']);
    assert("mpm"@ =~= seq!['m', 'p', 'm']);
    assert("bitstream"@ =~= seq!['b', 'i', 't', 's', 't', 'r', 'e', 'a', 'm']);
    if v == 0 {
        let txt = detector_text_spec(v);
        assert(trim_start(txt) == txt);
        assert(trim_end(txt) == txt);
        assert(ascii_normalized(txt) =~= seq!['y', 'i', 'n']);
        assert(digit_char(v as int) == '0');
        assert(decimal(v as int) =~= "0"@);
    } else if v == 1 {
        let txt = detector_text_spec(v);
        assert(trim_start(txt) == txt);
        assert(trim_end(txt) == txt);
        assert(ascii_normalized(txt) =~= seq!['y', 'a', 'a', 'p', 't']);
        assert(digit_char(v as int) == '1');
        assert(decimal(v as int) =~= "1"@);
    } else if v == 2 {
        let txt = detector_text_spec(v);
        assert(trim_start(txt) == txt);
        assert(trim_end(txt) == txt);
        assert(ascii_normalized(txt) =~= seq!['p', 'y', 'i', 'n']);
        assert(digit_char(v as int) == '2');
        assert(decimal(v as int) =~= "2"@);
    } else if v == 3 {
        let txt = detector_text_spec(v);
        assert(trim_start(txt) == txt);
        assert(trim_end(txt) == txt);
        assert(ascii_normalized(txt) =~= seq!['m', 'p', 'm']);
        assert(digit_char(v as int) == '3');
        assert(decimal(v as int) =~= "3"@);
    } else if v == 4 {
        let txt = detector_text_spec(v);
        assert(trim_start(txt) == txt);
        assert(trim_end(txt) == txt);
        assert(ascii_normalized(txt) =~= seq!['b', 'i', 't', 's', 't', 'r', 'e', 'a', 'm']);
        assert(digit_char(v as int) == '4');
        assert(decimal(v as int) =~= "4"@);
    }
}

/// The only labels that read as a pitch shifter are its shown name (in any
/// case), its number, and "hybrid" for PVSOLA.
pub proof fn lemma_shifter_labels_closed(norm: Seq<char>, fallback: Option<i32>, v: i32)
    requires
        shifter_index_for(norm, fallback) == Some(v),
        Some(v) != fallback,
    ensures
        0 <= v < 4,
        norm == ascii_normalized(shifter_text_spec(v)) || norm == decimal(v as int) || (v == 3 && norm == "hybrid"@),
{
    reveal_strlit("0");
    reveal_strlit("1");
    reveal_strlit("2");
    reveal_strlit("3");
    reveal_strlit("auto");
    reveal_strlit("psola");
    reveal_strlit("vocoder");
    reveal_strlit("pvsola");
    reveal_strlit("hybrid");
    assert("0"@ =~= seq!['0']);
    assert("1"@ =~= seq!['1']);
    assert("2"@ =~= seq!['2']);
    assert("3"@ =~= seq!['3']);
    assert("auto"@ =~= seq!['a', 'u', 't', 'o']);
    assert("psola"@ =~= seq!['p', 's', 'o', 'l', 'a']);
    assert("vocoder"@ =~= seq!['v', 'o', 'c', 'o', 'd', 'e', 'r']);
    assert("pvsola"@ =~= seq!['p', 'v', 's', 'o', 'l', 'a']);
    assert("hybrid"@ =~= seq!['h', 'y', 'b', 'r', 'i', 'd']);
    if v == 0 {
        let txt = shifter_text_spec(v);
        assert(trim_start(txt) == txt);
        assert(trim_end(txt) == txt);
        assert(ascii_normalized(txt) =~= seq!['a', 'u', 't', 'o']);
        assert(digit_char(v as int) == '0');
        assert(decimal(v as int) =~= "0"@);
    } else if v == 1 {
        let txt = shifter_text_spec(v);
        assert(trim_start(txt) == txt);
        assert(trim_end(txt) == txt);
        assert(ascii_normalized(txt) =~= seq!['p', 's', 'o', 'l', 'a']);
        assert(digit_char(v as int) == '1');
        assert(decimal(v as int) =~= "1"@);
    } else if v == 2 {
        let txt = shifter_text_spec(v);
        assert(trim_start(txt) == txt);
        assert(trim_end(txt) == txt);
        assert(ascii_normalized(txt) =~= seq!['v', 'o', 'c', 'o', 'd', 'e', 'r']);
        assert(digit_char(v as int) == '2');
        assert(decimal(v as int) =~= "2"@);
    } else if v == 3 {
        let txt = shifter_text_spec(v);
        assert(trim_start(txt) == txt);
        assert(trim_end(txt) == txt);
        assert(ascii_normalized(txt) =~= seq!['p', 'v', 's', 'o', 'l', 'a']);
        assert(digit_char(v as int) == '3');
        assert(decimal(v as int) =~= "3"@);
    }
}

/// The only labels that read as a drum target are its shown name (in any
/// case), its number, and "hihat" and "hat" for Hi-Hat; "gtr" and "di" for Guitar.
pub proof fn lemma_drum_target_labels_closed(norm: Seq<char>, v: i32)
    requires
        drum_target_for(norm) == Some(v as u8),
        0 <= v < 256,
    ensures
        0 <= v < 6,
        norm == ascii_normalized(drum_target_text_spec(v)) || norm == decimal(v as int) || (v == 3 && norm == "hihat"@) || (v == 3 && norm == "hat"@) || (v == 5 && norm == "gtr"@) || (v == 5 && norm == "di"@),
{
    reveal_strlit("0");
    reveal_strlit("1");
    reveal_strlit("2");
    reveal_strlit("3");
    reveal_strlit("4");
    reveal_strlit("5");
    reveal_strlit("off");
    reveal_strlit("kick");
    reveal_strlit("snare");
    reveal_strlit("hi-hat");
    reveal_strlit("tom");
    reveal_strlit("guitar");
    reveal_strlit("hihat");
    reveal_strlit("hat");
    reveal_strlit("gtr");
    reveal_strlit("di");
    assert("0"@ =~= seq!['0']);
    assert("1"@ =~= seq!['1']);
    assert("2"@ =~= seq!['2']);
    assert("3"@ =~= seq!['3']);
    assert("4"@ =~= seq!['4']);
    assert("5"@ =~= seq!['5']);
    assert("off"@ =~= seq!['o', 'f', 'f']);
    assert("kick"@ =~= seq!['k', 'i', 'c', 'k']);
    assert("snare"@ =~= seq!['s', 'n', 'a', 'r', 'e']);
    assert("hi-hat"@ =~= seq!['h', 'i', '-', 'h', 'a', 't']);
    assert("tom"@ =~= seq!['t', 'o', 'm']);
    assert("guitar"@ =~= seq!['g', 'u', 'i', 't', 'a', 'r']);
    assert("hihat"@ =~= seq!['h', 'i', 'h', 'a', 't']);
    assert("hat"@ =~= seq!['h', 'a', 't']);
    assert("gtr"@ =~= seq!['g', 't', 'r']);
    assert("di"@ =~= seq!['d', 'i']);
    if v == 0 {
        let txt = drum_target_text_spec(v);
        assert(trim_start(txt) == txt);
        assert(trim_end(txt) == txt);
        assert(ascii_normalized(txt) =~= seq!['o', 'f', 'f']);
        assert(digit_char(v as int) == '0');
        assert(decimal(v as int) =~= "0"@);
    } else if v == 1 {
        let txt = drum_target_text_spec(v);
        assert(trim_start(txt) == txt);
        assert(trim_end(txt) == txt);
        assert(ascii_normalized(txt) =~= seq!['k', 'i', 'c', 'k']);
        assert(digit_char(v as int) == '1');
        assert(decimal(v as int) =~= "1"@);
    } else if v == 2 {
        let txt = drum_target_text_spec(v);
        assert(trim_start(txt) == txt);
        assert(trim_end(txt) == txt);
        assert(ascii_normalized(txt) =~= seq!['s', 'n', 'a', 'r', 'e']);
        assert(digit_char(v as int) == '2');
        assert(decimal(v as int) =~= "2"@);
    } else if v == 3 {
        let txt = drum_target_text_spec(v);
        assert(trim_start(txt) == txt);
        assert(trim_end(txt) == txt);
        assert(ascii_normalized(txt) =~= seq!['h', 'i', '-', 'h', 'a', 't']);
        assert(digit_char(v as int) == '3');
        assert(decimal(v as int) =~= "3"@);
    } else if v == 4 {
        let txt = drum_target_text_spec(v);
        assert(trim_start(txt) == txt);
        assert(trim_end(txt) == txt);
        assert(ascii_normalized(txt) =~= seq!['t', 'o', 'm']);
        assert(digit_char(v as int) == '4');
        assert(decimal(v as int) =~= "4"@);
    } else if v == 5 {
        let txt = drum_target_text_spec(v);
        assert(trim_start(txt) == txt);
        assert(trim_end(txt) == txt);
        assert(ascii_normalized(txt) =~= seq!['g', 'u', 'i', 't', 'a', 'r']);
        assert(digit_char(v as int) == '5');
        assert(decimal(v as int) =~= "5"@);
    }
}

/// The only labels that read as an on/off setting are its shown name (in any
/// case), its number (1 or 0), and "true" and "false".
pub proof fn lemma_switch_labels_closed(norm: Seq<char>, b: bool)
    requires
        switch_for(norm) == Some(b),
    ensures
        norm == ascii_normalized(switch_text_spec(b)) || norm == decimal(if b { 1 } else { 0 }) || norm == (if b {
            "true"@
        } else {
            "false"@
        }),
{
    reveal_strlit("on");
    reveal_strlit("1");
    reveal_strlit("true");
    reveal_strlit("off");
    reveal_strlit("0");
    reveal_strlit("false");
    assert("on"@ =~= seq!['o', 'n']);
    assert("1"@ =~= seq!['1']);
    assert("true"@ =~= seq!['t', 'r', 'u', 'e']);
    assert("off"@ =~= seq!['o', 'f', 'f']);
    assert("0"@ =~= seq!['0']);
    assert("false"@ =~= seq!['f', 'a', 'l', 's', 'e']);
    let txt = switch_text_spec(b);
    assert(trim_start(txt) == txt);
    assert(trim_end(txt) == txt);
    if b {
        assert(ascii_normalized(txt) =~= seq!['o', 'n']);
        assert(digit_char(1) == '1');
        assert(decimal(1) =~= "1"@);
    } else {
        assert(ascii_normalized(txt) =~= seq!['o', 'f', 'f']);
        assert(digit_char(0) == '0');
        assert(decimal(0) =~= "0"@);
    }
}

/// The only labels that read as a side-chain source are its shown name (in any
/// case), its number (1 or 0), and "ext" and "int".
pub proof fn lemma_sidechain_labels_closed(norm: Seq<char>, b: bool)
    requires
        sidechain_external_for(norm) == Some(b),
    ensures
        norm == ascii_normalized(sidechain_text_spec(b)) || norm == decimal(if b { 1 } else { 0 }) || norm == (if b {
            "ext"@
        } else {
            "int"@
        }),
{
    reveal_strlit("external");
    reveal_strlit("1");
    reveal_strlit("ext");
    reveal_strlit("internal");
    reveal_strlit("0");
    reveal_strlit("int");
    assert("external"@ =~= seq!['e', 'x', 't', 'e', 'r', 'n', 'a', 'l']);
    assert("1"@ =~= seq!['1']);
    assert("ext"@ =~= seq!['e', 'x', 't']);
    assert("internal"@ =~= seq!['i', 'n', 't', 'e', 'r', 'n', 'a', 'l']);
    assert("0"@ =~= seq!['0']);
    assert("int"@ =~= seq!['i', 'n', 't']);
    let txt = sidechain_text_spec(b);
    assert(trim_start(txt) == txt);
    assert(trim_end(txt) == txt);
    if b {
        assert(ascii_normalized(txt) =~= seq!['e', 'x', 't', 'e', 'r', 'n', 'a', 'l']);
        assert(digit_char(1) == '1');
        assert(decimal(1) =~= "1"@);
    } else {
        assert(ascii_normalized(txt) =~= seq!['i', 'n', 't', 'e', 'r', 'n', 'a', 'l']);
        assert(digit_char(0) == '0');
        assert(decimal(0) =~= "0"@);
    }
}
} // verus!
