//! Verified index, length and buffer logic for signal processing: power-of-two
//! checks, bit-reversal reordering, delay lines, polyphase resampling
//! schedules, STFT frame layout, phase-vocoder peak assignment and decimation.

pub mod error;
pub mod pow2;
pub mod bitrev;
pub mod delay;
pub mod polyphase;
pub mod lengths;
pub mod stft;
pub mod vocoder;
pub mod decimate;
