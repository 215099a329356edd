# soundz

The verified core of a small audio editor (trim, fades, normalization,
speed change, biquad filters, export to WAV or through ffmpeg).

- `src/` is the library, verified with Verus. It is generic over the sample
  type and holds the logic that does not depend on floating point:
  splitting decoded packets into channels and interleaving channels for
  WAV output (with the round-trip law between the two), the packet-loop
  decisions of the decoder, trimming and fade windows, the chunk plan and
  output assembly of the resampler, the frame ranges of the waveform
  overview, and the filter-spec and export-format grammars.
- `app/` is ordinary Rust around it: decoding with symphonia, WAV writing
  with hound, resampling with rubato, the ffmpeg call, the floating-point
  sample processing (gains, normalization, biquad filters), and the
  commands that the user interface calls.
- `tests/` runs the library on concrete inputs.
