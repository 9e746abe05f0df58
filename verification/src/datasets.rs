//! The naming rules of the two guitar datasets: which audio files belong
//! to a GuitarSet annotation, and how Guitar-TECHS direct-input recordings
//! pair with their MIDI annotations.  Listing directories and testing for
//! files is left to the caller; paths are plain strings here.

use vstd::prelude::*;

verus! {

/// A GuitarSet recording with paired audio and annotation files.
pub struct GuitarSetEntry {
    /// Base name (e.g. "00_BN1-129-Eb_comp").
    pub name: String,
    /// Path to the JAMS annotation file.
    pub annotation: String,
    /// Path to the hexaphonic debleeded WAV (6 channels).
    pub hex_audio: String,
    /// Path to the mono pickup mix WAV (1 channel).
    pub mono_audio: String,
}

/// A Guitar-TECHS recording with paired audio and MIDI files.
pub struct GuitarTechsEntry {
    /// Category directory (e.g. "P1_singlenotes").
    pub category: String,
    /// Path to the direct input WAV.
    pub di_audio: String,
    /// Path to the MIDI annotation.
    pub midi: String,
}

/// `s` with every occurrence of `from` replaced by `to`, occurrences taken
/// from the left without overlap; the empty pattern occurs before every
/// character and at the end.
pub open spec fn replace_all(s: Seq<char>, from: Seq<char>, to: Seq<char>) -> Seq<char>
    decreases s.len(),
{
    if from.len() == 0 {
        if s.len() == 0 {
            to
        } else {
            to + seq![s[0]] + replace_all(s.skip(1), from, to)
        }
    } else if s.len() == 0 {
        s
    } else if from.is_prefix_of(s) {
        to + replace_all(s.skip(from.len() as int), from, to)
    } else {
        seq![s[0]] + replace_all(s.skip(1), from, to)
    }
}

/// Whether `from` occurs in `s` at character position `i`.
fn occurs_at(s: &str, n: usize, i: usize, from: &str, m: usize) -> (b: bool)
    requires
        n == s@.len(),
        m == from@.len(),
        i <= n,
    ensures
        b == from@.is_prefix_of(s@.skip(i as int)),
{
    if n - i < m {
        return false;
    }
    let mut k: usize = 0;
    while k < m
        invariant
            n == s@.len(),
            m == from@.len(),
            i + m <= n,
            k <= m,
            forall|j: int| 0 <= j < k ==> from@[j] == s@[i + j],
        decreases m - k,
    {
        if from.get_char(k) != s.get_char(i + k) {
            assert(from@[k as int] != s@.skip(i as int)[k as int]);
            return false;
        }
        k += 1;
    }
    assert(from@ =~= s@.skip(i as int).take(m as int));
    true
}

/// `s` with every occurrence of `from` replaced by `to` (as `str::replace`
/// does).
pub fn replace_all_str(s: &str, from: &str, to: &str) -> (r: String)
    ensures
        r@ == replace_all(s@, from@, to@),
{
    let n = s.unicode_len();
    let m = from.unicode_len();
    let mut out = String::new();
    let mut i: usize = 0;
    proof {
        assert(s@.skip(0) =~= s@);
        assert(out@ + replace_all(s@, from@, to@) =~= replace_all(s@, from@, to@));
    }
    while i < n
        invariant
            n == s@.len(),
            m == from@.len(),
            i <= n,
            out@ + replace_all(s@.skip(i as int), from@, to@) == replace_all(s@, from@, to@),
        decreases n - i,
    {
        let ghost rest = s@.skip(i as int);
        let ghost before = out@;
        if m > 0 && occurs_at(s, n, i, from, m) {
            out.append(to);
            proof {
                assert(rest.skip(m as int) =~= s@.skip(i + m));
                let tail = replace_all(s@.skip(i + m), from@, to@);
                assert(replace_all(rest, from@, to@) == to@ + tail);
                assert(out@ + tail =~= before + (to@ + tail));
            }
            i = i + m;
        } else {
            if m == 0 {
                out.append(to);
            }
            let c = s.substring_char(i, i + 1);
            out.append(c);
            proof {
                assert(c@ =~= seq![rest[0]]);
                assert(rest.skip(1) =~= s@.skip(i + 1));
                let tail = replace_all(s@.skip(i + 1), from@, to@);
                if m == 0 {
                    assert(replace_all(rest, from@, to@) == to@ + seq![rest[0]] + tail);
                    assert(out@ + tail =~= before + (to@ + seq![rest[0]] + tail));
                } else {
                    assert(replace_all(rest, from@, to@) == seq![rest[0]] + tail);
                    assert(out@ + tail =~= before + (seq![rest[0]] + tail));
                }
            }
            i = i + 1;
        }
    }
    proof {
        assert(s@.skip(i as int) =~= Seq::<char>::empty());
    }
    if m == 0 {
        let ghost before = out@;
        out.append(to);
        proof {
            assert(before + to@ == replace_all(s@, from@, to@));
        }
    } else {
        proof {
            assert(out@ + Seq::<char>::empty() =~= out@);
        }
    }
    out
}

/// The MIDI file stem that goes with a direct-input stem:
/// "directinput_X" becomes "midi_X".
pub open spec fn midi_stem_for(wav_stem: Seq<char>) -> Seq<char> {
    replace_all(wav_stem, "directinput_"@, "midi_"@)
}

/// The MIDI file stem that goes with a direct-input stem.
pub fn midi_stem_for_wav(wav_stem: &str) -> (r: String)
    ensures
        r@ == midi_stem_for(wav_stem@),
{
    proof {
        reveal_strlit("directinput_");
    }
    replace_all_str(wav_stem, "directinput_", "midi_")
}

/// A Guitar-TECHS entry as plain values: category, audio path, MIDI path.
pub open spec fn techs_view(e: GuitarTechsEntry) -> (Seq<char>, Seq<char>, Seq<char>) {
    (e.category@, e.di_audio@, e.midi@)
}

/// Files as plain values: (path, stem).
pub open spec fn files_view(files: Seq<(String, String)>) -> Seq<(Seq<char>, Seq<char>)> {
    files.map_values(|f: (String, String)| (f.0@, f.1@))
}

/// The pairs of one audio file with the MIDI files among `midis` whose
/// stem is the audio stem's MIDI stem, in the order of `midis`.
pub open spec fn pairs_for_wav(
    category: Seq<char>,
    wav: (Seq<char>, Seq<char>),
    midis: Seq<(Seq<char>, Seq<char>)>,
) -> Seq<(Seq<char>, Seq<char>, Seq<char>)>
    decreases midis.len(),
{
    if midis.len() == 0 {
        Seq::empty()
    } else {
        let prev = pairs_for_wav(category, wav, midis.drop_last());
        if midis.last().1 == midi_stem_for(wav.1) {
            prev.push((category, wav.0, midis.last().0))
        } else {
            prev
        }
    }
}

/// All name-matched pairs, audio file by audio file.
pub open spec fn matched_pairs(
    category: Seq<char>,
    wavs: Seq<(Seq<char>, Seq<char>)>,
    midis: Seq<(Seq<char>, Seq<char>)>,
) -> Seq<(Seq<char>, Seq<char>, Seq<char>)>
    decreases wavs.len(),
{
    if wavs.len() == 0 {
        Seq::empty()
    } else {
        matched_pairs(category, wavs.drop_last(), midis) + pairs_for_wav(
            category,
            wavs.last(),
            midis,
        )
    }
}

/// The entries of one Guitar-TECHS category: a single recording with a
/// single MIDI file pair directly; otherwise by name.
pub open spec fn techs_entries(
    category: Seq<char>,
    wavs: Seq<(Seq<char>, Seq<char>)>,
    midis: Seq<(Seq<char>, Seq<char>)>,
) -> Seq<(Seq<char>, Seq<char>, Seq<char>)> {
    if wavs.len() == 1 && midis.len() == 1 {
        seq![(category, wavs[0].0, midis[0].0)]
    } else {
        matched_pairs(category, wavs, midis)
    }
}

/// Pair the direct-input recordings of a Guitar-TECHS category with its
/// MIDI files.  Both lists hold (path, file stem).
pub fn pair_guitar_techs(
    category: &str,
    wavs: &Vec<(String, String)>,
    midis: &Vec<(String, String)>,
) -> (r: Vec<GuitarTechsEntry>)
    ensures
        r@.map_values(|e: GuitarTechsEntry| techs_view(e)) == techs_entries(
            category@,
            files_view(wavs@),
            files_view(midis@),
        ),
{
    let ghost cat = category@;
    let ghost ws = files_view(wavs@);
    let ghost ms = files_view(midis@);
    let mut out: Vec<GuitarTechsEntry> = Vec::new();
    if wavs.len() == 1 && midis.len() == 1 {
        out.push(
            GuitarTechsEntry {
                category: String::from_str(category),
                di_audio: wavs[0].0.clone(),
                midi: midis[0].0.clone(),
            },
        );
        assert(out@.map_values(|e: GuitarTechsEntry| techs_view(e)) =~= techs_entries(cat, ws, ms));
        return out;
    }
    let mut i: usize = 0;
    while i < wavs.len()
        invariant
            i <= wavs@.len(),
            ws == files_view(wavs@),
            ms == files_view(midis@),
            cat == category@,
            out@.map_values(|e: GuitarTechsEntry| techs_view(e)) == matched_pairs(
                cat,
                ws.take(i as int),
                ms,
            ),
        decreases wavs@.len() - i,
    {
        let midi_name = midi_stem_for_wav(wavs[i].1.as_str());
        let ghost before = out@.map_values(|e: GuitarTechsEntry| techs_view(e));
        let mut j: usize = 0;
        while j < midis.len()
            invariant
                i < wavs@.len(),
                j <= midis@.len(),
                ws == files_view(wavs@),
                ms == files_view(midis@),
                cat == category@,
                midi_name@ == midi_stem_for(ws[i as int].1),
                out@.map_values(|e: GuitarTechsEntry| techs_view(e)) == before + pairs_for_wav(
                    cat,
                    ws[i as int],
                    ms.take(j as int),
                ),
            decreases midis@.len() - j,
        {
            proof {
                assert(ms.take(j + 1).drop_last() =~= ms.take(j as int));
                assert(ms.take(j + 1).last() == ms[j as int]);
            }
            let ghost prev = out@;
            if midis[j].1 == midi_name {
                let entry = GuitarTechsEntry {
                    category: String::from_str(category),
                    di_audio: wavs[i].0.clone(),
                    midi: midis[j].0.clone(),
                };
                proof {
                    assert(ws[i as int] == (wavs@[i as int].0@, wavs@[i as int].1@));
                    assert(ms[j as int] == (midis@[j as int].0@, midis@[j as int].1@));
                    assert(techs_view(entry) == (cat, ws[i as int].0, ms[j as int].0));
                    assert(pairs_for_wav(cat, ws[i as int], ms.take(j + 1)) == pairs_for_wav(
                        cat,
                        ws[i as int],
                        ms.take(j as int),
                    ).push(techs_view(entry)));
                }
                out.push(entry);
                assert(out@.map_values(|e: GuitarTechsEntry| techs_view(e)) =~= prev.map_values(
                    |e: GuitarTechsEntry| techs_view(e),
                ).push(techs_view(entry)));
                assert(out@.map_values(|e: GuitarTechsEntry| techs_view(e)) =~= before
                    + pairs_for_wav(cat, ws[i as int], ms.take(j + 1)));
            } else {
                assert(ms[j as int] == (midis@[j as int].0@, midis@[j as int].1@));
                assert(out@.map_values(|e: GuitarTechsEntry| techs_view(e)) =~= before
                    + pairs_for_wav(cat, ws[i as int], ms.take(j + 1)));
            }
            j += 1;
        }
        proof {
            assert(ms.take(midis@.len() as int) =~= ms);
            assert(ws.take(i + 1).drop_last() =~= ws.take(i as int));
            assert(ws.take(i + 1).last() == ws[i as int]);
        }
        i += 1;
    }
    proof {
        assert(ws.take(wavs@.len() as int) =~= ws);
    }
    out
}

/// File name of the hexaphonic recording of a GuitarSet annotation stem.
pub open spec fn hex_name_spec(stem: Seq<char>) -> Seq<char> {
    stem + "_hex_cln.wav"@
}

/// File name of the mono mix recording of a GuitarSet annotation stem.
pub open spec fn mono_name_spec(stem: Seq<char>) -> Seq<char> {
    stem + "_mix.wav"@
}

/// The audio file names (hexaphonic, mono mix) of a GuitarSet stem.
pub fn guitarset_audio_names(stem: &str) -> (r: (String, String))
    ensures
        r.0@ == hex_name_spec(stem@),
        r.1@ == mono_name_spec(stem@),
{
    let mut hex = String::from_str(stem);
    hex.append("_hex_cln.wav");
    let mut mono = String::from_str(stem);
    mono.append("_mix.wav");
    (hex, mono)
}

/// A GuitarSet entry, kept only when both of its recordings exist.
pub fn guitarset_entry(
    name: String,
    annotation: String,
    hex_audio: String,
    mono_audio: String,
    hex_exists: bool,
    mono_exists: bool,
) -> (r: Option<GuitarSetEntry>)
    ensures
        r is Some <==> hex_exists && mono_exists,
        r matches Some(e) ==> e.name == name && e.annotation == annotation && e.hex_audio
            == hex_audio && e.mono_audio == mono_audio,
{
    if hex_exists && mono_exists {
        Some(GuitarSetEntry { name, annotation, hex_audio, mono_audio })
    } else {
        None
    }
}

/// Whether a file extension marks a JAMS annotation.
pub fn is_jams_extension(ext: &str) -> (b: bool)
    ensures
        b == (ext@ == "jams"@),
{
    let target = String::from_str("jams");
    let e = String::from_str(ext);
    e == target
}

/// Whether a file extension marks a WAV recording.
pub fn is_wav_extension(ext: &str) -> (b: bool)
    ensures
        b == (ext@ == "wav"@),
{
    let target = String::from_str("wav");
    let e = String::from_str(ext);
    e == target
}

/// Whether a file extension marks a MIDI file ("mid" or "midi").
pub fn is_midi_extension(ext: &str) -> (b: bool)
    ensures
        b == (ext@ == "mid"@ || ext@ == "midi"@),
{
    let e = String::from_str(ext);
    let short = String::from_str("mid");
    let long = String::from_str("midi");
    e == short || e == long
}

/// Channel `c` of interleaved samples with `channels` channels: the `c`-th
/// sample of every whole frame (a trailing partial frame is dropped).
pub open spec fn channel_of<T>(samples: Seq<T>, channels: int, c: int) -> Seq<T> {
    Seq::new((samples.len() as int / channels) as nat, |f: int| samples[f * channels + c])
}

proof fn lemma_frame_index(f: int, c: int, n: int, len: int)
    requires
        0 <= f < len / n,
        0 <= c < n,
        0 < n,
        0 <= len,
    ensures
        0 <= f * n + c < len,
{
    assert(f * n + c < len) by (nonlinear_arith)
        requires
            0 <= f < len / n,
            0 <= c < n,
            0 < n,
            0 <= len,
    {
        assert(f + 1 <= len / n);
        assert((f + 1) * n <= (len / n) * n);
        assert((len / n) * n <= len);
    }
    assert(0 <= f * n) by (nonlinear_arith)
        requires
            0 <= f,
            0 < n,
    ;
}

/// Split interleaved samples into one sequence per channel, whole frames
/// only.
pub fn deinterleave<T: Copy>(samples: &Vec<T>, channels: usize) -> (out: Vec<Vec<T>>)
    requires
        channels > 0,
    ensures
        out.len() == channels,
        forall|c: int| 0 <= c < channels ==> (#[trigger] out[c])@ == channel_of(samples@, channels as int, c),
{
    let len = samples.len();
    let frames = len / channels;
    let mut out: Vec<Vec<T>> = Vec::new();
    let mut c: usize = 0;
    while c < channels
        invariant
            c <= channels,
            frames == samples@.len() as int / (channels as int),
            len == samples@.len(),
            out.len() == c,
            forall|k: int| 0 <= k < c ==> (#[trigger] out[k])@ == channel_of(samples@, channels as int, k),
        decreases channels - c,
    {
        let mut chan: Vec<T> = Vec::new();
        let mut f: usize = 0;
        while f < frames
            invariant
                c < channels,
                f <= frames,
                frames == samples@.len() as int / (channels as int),
                len == samples@.len(),
                chan@ == channel_of(samples@, channels as int, c as int).take(f as int),
            decreases frames - f,
        {
            proof {
                lemma_frame_index(f as int, c as int, channels as int, samples@.len() as int);
            }
            let x = samples[f * channels + c];
            chan.push(x);
            proof {
                assert(chan@ =~= channel_of(samples@, channels as int, c as int).take(f + 1));
            }
            f += 1;
        }
        proof {
            assert(chan@ =~= channel_of(samples@, channels as int, c as int));
        }
        out.push(chan);
        c += 1;
    }
    out
}

} // verus!
