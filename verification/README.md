# tunerfish

A polyphonic string tuner: strum all strings at once and each detected
string gets its own pitch track.

- `src/` is the verified library. It holds the tuner's integer decisions:
  framing the sample stream into overlapping windows, choosing spectral
  peaks, the plausibility rule for a harmonic stack, peak picking on the
  salience map, the track bank (identities, hit and miss counts,
  association of candidates with tracks, the choice of the track a
  candidate revives, spawning and pruning), and the packed output layout.
  Real-valued quantities reach it as `u32` keys ordered like
  `f32::total_cmp`, or as flags computed from them.
- `app/` is the WebAssembly crate around it: the FFT (realfft), the
  floating-point signal processing, the Kalman filtering and the
  real-valued tests behind those keys and flags, and the exported entry
  points.
- `tests/` exercises the library on concrete values.
