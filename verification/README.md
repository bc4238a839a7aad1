# hifisampler_core

The core of a singing-voice resampler, verified with Verus: it takes a recorded syllable
and a note request and decides how the recording is looped, stretched, rendered and
finished.

- `src/ieee.rs`: floats as bit patterns, with their exact order.
- `src/config.rs`: the configuration, its defaults, and how a partial one is completed.
- `src/reflect.rs`: reflection of indices, reflection and mirror padding.
- `src/frames.rs`: framing, overlap-add, and the short-time transform and its inverse.
- `src/tension.rs`: the frame-by-frame tension filter.
- `src/loudness.rs`: the weighting filter, gated loudness, silence trimming, normalization.
- `src/interp.rs`: linear and Akima interpolation, gradients.
- `src/mel.rs`: mel spectrograms on `ndarray`: looping and rendering.
- `src/wav.rs`: WAV data through `hound`: reading, writing, mixing down.
- `src/resampler.rs`: the decisions of the rendering pipeline.

Floating-point arithmetic is handed to the core as closures; contracts say which values
each closure is given and where its results go. `app/` supplies that arithmetic, the file
I/O, the transforms and the serialization.
