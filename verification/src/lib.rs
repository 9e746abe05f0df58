//! Decision logic of the FTS audio plugins, proved with Verus.
//!
//! - `drum`, `sync`, `align`: drum classes, the onset ring that gate
//!   instances share, and the delay that lines one instance up with its peers;
//! - `quantizer`, `modes`, `bitstream`, `sort`: scale selection, algorithm
//!   latencies and the one-bit autocorrelation of the pitch corrector;
//! - `notes`, `midi`: note names and note state of the guitar-to-MIDI
//!   plugin, and note extraction from standard MIDI files;
//! - `dynamics`: when a noise-gated channel opens and closes, its
//!   envelope phases and its lookahead delay line;
//! - `datasets`, `bit_reversal`: the naming rules of the guitar datasets and the FFT's
//!   index permutation;
//! - `labels`: parameter values typed in as text.

pub mod drum;
pub mod quantizer;
pub mod sort;
pub mod sync;
pub mod align;
pub mod notes;
pub mod bitstream;
pub mod modes;
pub mod midi;
pub mod dynamics;
pub mod datasets;
pub mod bit_reversal;
pub mod labels;
