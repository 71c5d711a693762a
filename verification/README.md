# resonant_dsp

Verified integer and buffer logic for a DSP toolkit (FFT, STFT, phase vocoder,
FIR/IIR filters, resampling), with the floating-point arithmetic around it.

- `src/` — the library, verified with Verus:
  - `error` — `FftError`, `DesignError`, `FilterError` and their messages.
  - `pow2` — power-of-two length checks (`validate_length`), next power of two.
  - `bitrev` — bit-reversed indices and the in-place bit-reversal reordering
    used by radix-2 FFTs (an involution).
  - `lengths` — buffer-length rules of the real FFT, inverse real FFT, DCT,
    planned FFTs, Chebyshev section counts and FIR response FFT sizes.
  - `stft` — frame layout of the short-time Fourier transform.
  - `vocoder` — phase-vocoder bin count and nearest-peak assignment.
  - `delay` — fixed-length delay line (circular buffer).
  - `polyphase` — gcd, ratio reduction, polyphase decomposition and the
    phase schedule of a rational resampler, with its output-count law.
  - `decimate` — output length and sample selection of integer decimation.
- `tests/` — tests of the library.
- `app/` — the floating-point side (transforms, filter arithmetic, design
  formulas, responses) built on the library.
