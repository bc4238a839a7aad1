//! The decisions of the rendering pipeline: where features come from, which frames are
//! rendered, what is cut from the vocoder's output, and which effects follow in what order.

use crate::ieee::{Binary32, Binary64, HUNDREDTH_64};
use crate::interp::{gradient, locate, Place};
use vstd::arithmetic::power2::*;
use vstd::prelude::*;

verus! {

/// A note is looped rather than stretched: the flag toggles what the configuration says.
pub open spec fn loops(config_loop_mode: bool, he_flag: bool) -> bool {
    config_loop_mode != he_flag
}

/// Loop rather than stretch.
pub fn should_use_loop_mode(config_loop_mode: bool, he_flag: bool) -> (r: bool)
    ensures
        r == loops(config_loop_mode, he_flag),
{
    config_loop_mode ^ he_flag
}

/// Output that is thrown away: nothing needs to be synthesized.
pub fn is_null_output(path: &String) -> (r: bool)
    ensures
        r <==> path@ == "nul"@ || path@ == "/dev/null"@,
{
    *path == "nul".to_string() || *path == "/dev/null".to_string()
}

// ── Features ──────────────────────────────────────────────────────────

/// What the way to the features of a recording depends on.
#[derive(Clone, Copy, Debug, PartialEq, Eq, Structural)]
pub struct FeatureFlags {
    /// Compute the features anew even if they are cached.
    pub gen_cache: bool,
    /// Breath, voicing or tension ask for separating harmonics from noise.
    pub needs_hnsep: bool,
    /// A separation model is loaded.
    pub model_loaded: bool,
    /// Tension, zero for none.
    pub tension: i32,
}

/// A step on the way to the features of a recording.
#[derive(Clone, Copy, Debug, PartialEq, Eq, Structural)]
pub enum FeatureStep {
    /// Look the features up in the cache.
    LoadCache,
    /// Read the recording.
    ReadWave,
    /// Separate harmonics from noise.
    Separate,
    /// Mix harmonics and noise again, each at its volume.
    MixPlain,
    /// Mix harmonics and noise again, the harmonics filtered for tension.
    MixTension,
    /// Find the peak of the recording.
    MeasurePeak,
    /// Scale the recording down to half of full scale.
    Attenuate,
    /// Compute the spectrogram.
    Analyze,
    /// Put the features into the cache.
    StoreCache,
    /// The features are there.
    Done,
    /// The recording could not be read or separated: there are no features.
    Failed,
}

/// What came of a step.
#[derive(Clone, Copy, Debug, PartialEq, Eq, Structural)]
pub enum FeatureEvent {
    /// The step is over.
    Finished,
    /// The step failed.
    Failed,
    /// The cache has the features.
    Found,
    /// The peak of the recording.
    Peak(Binary32),
}

/// The peak is at least half of full scale.
pub open spec fn is_loud(peak: Binary32) -> bool {
    !peak.spec_is_nan() && peak.units() >= pow2(148)
}

/// The peak is at least half of full scale.
pub fn needs_attenuation(peak: Binary32) -> (r: bool)
    ensures
        r == is_loud(peak),
{
    let half = Binary32 { bits: 0x3f00_0000 };
    proof {
        lemma2_to64();
        crate::ieee::lemma_magnitude_of_product(0x3f00_0000, 23, 126, 1, 23);
        if !peak.spec_is_nan() {
            crate::ieee::law_order_key_32(half, peak);
        }
    }
    match peak.order_key() {
        Some(key) => key >= 0x3f00_0000,
        None => false,
    }
}

/// The first step.
pub open spec fn spec_first_step(flags: FeatureFlags) -> FeatureStep {
    if flags.gen_cache {
        FeatureStep::ReadWave
    } else {
        FeatureStep::LoadCache
    }
}

/// The first step on the way to the features.
pub fn first_step(flags: FeatureFlags) -> (r: FeatureStep)
    ensures
        r == spec_first_step(flags),
{
    if flags.gen_cache {
        FeatureStep::ReadWave
    } else {
        FeatureStep::LoadCache
    }
}

/// The step after `step`, given what came of it. A recording that cannot be read or
/// separated ends the way; features that cannot be looked up are computed, and it does not
/// matter whether they could be stored.
pub open spec fn spec_next_step(
    flags: FeatureFlags,
    step: FeatureStep,
    event: FeatureEvent,
) -> FeatureStep {
    match step {
        FeatureStep::LoadCache => if event is Found {
            FeatureStep::Done
        } else {
            FeatureStep::ReadWave
        },
        FeatureStep::ReadWave => if event is Failed {
            FeatureStep::Failed
        } else if flags.needs_hnsep && flags.model_loaded {
            FeatureStep::Separate
        } else {
            FeatureStep::MeasurePeak
        },
        FeatureStep::Separate => if event is Failed {
            FeatureStep::Failed
        } else if flags.tension != 0 {
            FeatureStep::MixTension
        } else {
            FeatureStep::MixPlain
        },
        FeatureStep::MixPlain | FeatureStep::MixTension => FeatureStep::MeasurePeak,
        FeatureStep::MeasurePeak => if event matches FeatureEvent::Peak(peak) && is_loud(peak) {
            FeatureStep::Attenuate
        } else {
            FeatureStep::Analyze
        },
        FeatureStep::Attenuate => FeatureStep::Analyze,
        FeatureStep::Analyze => FeatureStep::StoreCache,
        FeatureStep::StoreCache | FeatureStep::Done => FeatureStep::Done,
        FeatureStep::Failed => FeatureStep::Failed,
    }
}

/// The step after `step`, given what came of it. A recording that cannot be read or
/// separated ends the way; features that cannot be looked up are computed, and it does not
/// matter whether they could be stored.
pub fn next_step(flags: FeatureFlags, step: FeatureStep, event: FeatureEvent) -> (r: FeatureStep)
    ensures
        r == spec_next_step(flags, step, event),
        step is Separate && !(event is Failed) ==> r == if flags.tension == 0 {
            FeatureStep::MixPlain
        } else {
            FeatureStep::MixTension
        },
{
    match step {
        FeatureStep::LoadCache => match event {
            FeatureEvent::Found => FeatureStep::Done,
            _ => FeatureStep::ReadWave,
        },
        FeatureStep::ReadWave => match event {
            FeatureEvent::Failed => FeatureStep::Failed,
            _ => if flags.needs_hnsep && flags.model_loaded {
                FeatureStep::Separate
            } else {
                FeatureStep::MeasurePeak
            },
        },
        FeatureStep::Separate => match event {
            FeatureEvent::Failed => FeatureStep::Failed,
            _ => if flags.tension != 0 {
                FeatureStep::MixTension
            } else {
                FeatureStep::MixPlain
            },
        },
        FeatureStep::MixPlain | FeatureStep::MixTension => FeatureStep::MeasurePeak,
        FeatureStep::MeasurePeak => match event {
            FeatureEvent::Peak(peak) => if needs_attenuation(peak) {
                FeatureStep::Attenuate
            } else {
                FeatureStep::Analyze
            },
            _ => FeatureStep::Analyze,
        },
        FeatureStep::Attenuate => FeatureStep::Analyze,
        FeatureStep::Analyze => FeatureStep::StoreCache,
        FeatureStep::StoreCache | FeatureStep::Done => FeatureStep::Done,
        FeatureStep::Failed => FeatureStep::Failed,
    }
}

/// `out` is a separated recording put together again, sample by sample: what `mix` makes of
/// the recording, its harmonics and the harmonics as they are to sound; as long as the
/// shortest of the three.
pub open spec fn is_mixed<T, F: Fn(T, T, T) -> T>(
    wave: Seq<T>,
    harmonic: Seq<T>,
    voiced: Seq<T>,
    mix: F,
    out: Seq<T>,
) -> bool {
    &&& out.len() <= wave.len()
    &&& out.len() <= harmonic.len()
    &&& out.len() <= voiced.len()
    &&& out.len() == wave.len() || out.len() == harmonic.len() || out.len() == voiced.len()
    &&& forall|i: int|
        0 <= i < out.len() ==> mix.ensures((wave[i], harmonic[i], voiced[i]), #[trigger] out[i])
}

/// Put a separated recording together again, sample by sample, from the recording, its
/// harmonics and the harmonics as they are to sound; as long as the shortest of the three.
pub fn mix_parts<T: Copy, F: Fn(T, T, T) -> T>(
    wave: &[T],
    harmonic: &[T],
    voiced: &[T],
    mix: &F,
) -> (r: Vec<T>)
    requires
        forall|w: T, h: T, v: T| #[trigger] mix.requires((w, h, v)),
    ensures
        is_mixed(wave@, harmonic@, voiced@, *mix, r@),
{
    let both: usize = if harmonic.len() < wave.len() {
        harmonic.len()
    } else {
        wave.len()
    };
    let len: usize = if voiced.len() < both {
        voiced.len()
    } else {
        both
    };
    let mut out: Vec<T> = Vec::new();
    for i in 0..len
        invariant
            len <= wave@.len(),
            len <= harmonic@.len(),
            len <= voiced@.len(),
            forall|w: T, h: T, v: T| #[trigger] mix.requires((w, h, v)),
            out@.len() == i,
            forall|k: int|
                0 <= k < i ==> mix.ensures(
                    (wave@[k], harmonic@[k], voiced@[k]),
                    #[trigger] out@[k],
                ),
    {
        out.push(mix(wave[i], harmonic[i], voiced[i]));
    }
    out
}

// ── Rendering ─────────────────────────────────────────────────────────

/// A step of rendering a note.
#[derive(Clone, Copy, Debug, PartialEq, Eq, Structural)]
pub enum RenderStep {
    /// Get the features of the recording.
    Features,
    /// Stretch the features to the note.
    Prepare,
    /// Synthesize the waveform.
    Synthesize,
    /// Apply the effects.
    Finish,
    /// Write the result.
    Save,
    /// The note is rendered.
    Done,
    /// The note could not be rendered.
    Failed,
}

/// What came of a step of rendering.
#[derive(Clone, Copy, Debug, PartialEq, Eq, Structural)]
pub enum RenderEvent {
    /// The step is over.
    Finished,
    /// The step failed.
    Failed,
}

/// The step of rendering after `step`, given what came of it. A failure ends the rendering,
/// and so do the features where the output is thrown away.
pub open spec fn spec_next_render_step(
    null_output: bool,
    step: RenderStep,
    event: RenderEvent,
) -> RenderStep {
    match step {
        RenderStep::Done => RenderStep::Done,
        RenderStep::Failed => RenderStep::Failed,
        _ => if event is Failed {
            RenderStep::Failed
        } else {
            match step {
                RenderStep::Features => if null_output {
                    RenderStep::Done
                } else {
                    RenderStep::Prepare
                },
                RenderStep::Prepare => RenderStep::Synthesize,
                RenderStep::Synthesize => RenderStep::Finish,
                RenderStep::Finish => RenderStep::Save,
                _ => RenderStep::Done,
            }
        },
    }
}

/// The step of rendering after `step`, given what came of it. Rendering starts with
/// `RenderStep::Features`.
pub fn next_render_step(null_output: bool, step: RenderStep, event: RenderEvent) -> (r: RenderStep)
    ensures
        r == spec_next_render_step(null_output, step, event),
{
    match (step, event) {
        (RenderStep::Done, _) => RenderStep::Done,
        (RenderStep::Failed, _) => RenderStep::Failed,
        (_, RenderEvent::Failed) => RenderStep::Failed,
        (RenderStep::Features, RenderEvent::Finished) => if null_output {
            RenderStep::Done
        } else {
            RenderStep::Prepare
        },
        (RenderStep::Prepare, RenderEvent::Finished) => RenderStep::Synthesize,
        (RenderStep::Synthesize, RenderEvent::Finished) => RenderStep::Finish,
        (RenderStep::Finish, RenderEvent::Finished) => RenderStep::Save,
        (RenderStep::Save, RenderEvent::Finished) => RenderStep::Done,
    }
}

// ── Frames to render ──────────────────────────────────────────────────

/// Where the part of a recording that a note uses ends: a negative cutoff is counted from
/// the start of the part, any other from the end of the recording.
pub open spec fn end_of_source(
    cutoff: Binary32,
    from_start: Binary64,
    from_end: Binary64,
) -> Binary64 {
    if !cutoff.spec_is_nan() && cutoff.units() < 0 {
        from_start
    } else {
        from_end
    }
}

/// Where the part of a recording that a note uses ends: a negative cutoff is counted from
/// the start of the part, any other from the end of the recording.
pub fn source_end(cutoff: Binary32, from_start: Binary64, from_end: Binary64) -> (r: Binary64)
    ensures
        r == end_of_source(cutoff, from_start, from_end),
{
    let zero = Binary32 { bits: 0 };
    proof {
        assert(zero.units() == 0) by {
            lemma2_to64();
        }
        if !cutoff.spec_is_nan() {
            crate::ieee::law_order_key_32(cutoff, zero);
        }
    }
    if zero.exceeds(cutoff) {
        from_start
    } else {
        from_end
    }
}

/// `r` is the factor by which a note is stretched: `ratio` where less is available than
/// wanted, and one otherwise, for a note is never shortened.
pub open spec fn is_stretch_ratio(
    available: Binary64,
    wanted: Binary64,
    ratio: Binary64,
    r: Binary64,
) -> bool {
    if wanted.spec_exceeds(available) {
        r == ratio
    } else {
        r.is_integer(1)
    }
}

/// The factor by which a note is stretched: `ratio` where less is available than wanted,
/// and one otherwise, for a note is never shortened.
pub fn stretch_ratio(available: Binary64, wanted: Binary64, ratio: Binary64) -> (r: Binary64)
    ensures
        is_stretch_ratio(available, wanted, ratio, r),
        !wanted.spec_is_nan() && !available.spec_is_nan() && wanted.units() > available.units()
            ==> r == ratio,
        wanted.spec_is_nan() || available.spec_is_nan() || wanted.units() <= available.units()
            ==> r.is_integer(1),
{
    proof {
        crate::ieee::law_exceeds_64(wanted, available);
    }
    if wanted.exceeds(available) {
        ratio
    } else {
        proof {
            crate::ieee::lemma_one_64();
        }
        Binary64 { bits: 0x3ff0_0000_0000_0000 }
    }
}

/// The frames of a stretched note that are rendered.
#[derive(Clone, Copy, Debug, PartialEq, Eq, Structural)]
pub struct FramePlan {
    /// The first frame rendered: as many frames are cut on the left.
    pub first: usize,
    /// The frame behind the last one rendered.
    pub end: usize,
}

/// Why a note cannot be rendered.
#[derive(Clone, Copy, Debug, PartialEq, Eq, Structural)]
pub enum RenderError {
    /// No frames to render after trimming.
    NoFrames,
}

/// Frames cut on the left of a note that sounds from frame `start` on, so that `fill`
/// frames of run-in remain.
pub open spec fn left_cut(start: Option<i64>, fill: int) -> int {
    match start {
        Some(s) => if s > fill {
            s - fill
        } else {
            0
        },
        None => 0,
    }
}

/// The end of the frames of a note that sounds until frame `end`, so that `fill` frames of
/// run-out remain as far as there are that many.
pub open spec fn right_end(n_frames: int, end: Option<i64>, fill: int) -> int {
    match end {
        Some(e) => if e + fill >= n_frames {
            n_frames
        } else if e + fill >= 0 {
            e + fill
        } else {
            0
        },
        None => n_frames,
    }
}

/// `r` is the plan for a note of `n_frames` frames that sounds in `start..end`: the frames
/// left after cutting, or an error where none is left.
pub open spec fn is_planned(
    n_frames: int,
    start: Option<i64>,
    end: Option<i64>,
    fill: int,
    r: Result<FramePlan, RenderError>,
) -> bool {
    let left = left_cut(start, fill);
    let stop = right_end(n_frames, end, fill);
    match r {
        Ok(plan) => {
            &&& left < stop
            &&& plan.first == left
            &&& plan.end == stop
        },
        Err(RenderError::NoFrames) => left >= stop,
    }
}

/// Choose the frames to render of a note of `n_frames` frames that sounds in
/// `start_frame..end_frame`, with `fill` frames to spare on either side. A frame number is
/// `None` where it is not a number.
pub fn plan_frames(
    n_frames: usize,
    start_frame: Option<i64>,
    end_frame: Option<i64>,
    fill: usize,
) -> (r: Result<FramePlan, RenderError>)
    ensures
        is_planned(n_frames as int, start_frame, end_frame, fill as int, r),
        r matches Ok(plan) ==> plan.first < plan.end <= n_frames,
{
    let left: i128 = match start_frame {
        Some(s) => if s as i128 > fill as i128 {
            s as i128 - fill as i128
        } else {
            0
        },
        None => 0,
    };
    let end: i128 = match end_frame {
        Some(e) => {
            let reach: i128 = e as i128 + fill as i128;
            if reach >= n_frames as i128 {
                n_frames as i128
            } else if reach >= 0 {
                reach
            } else {
                0
            }
        },
        None => n_frames as i128,
    };
    if left < end {
        Ok(FramePlan { first: left as usize, end: end as usize })
    } else {
        Err(RenderError::NoFrames)
    }
}

/// `value` is the time in the source that a rendered note shows at `time`: before the knee
/// by one rule, from there on by another, and never outside the source, which ends at
/// `last`.
pub open spec fn is_stretched<B: Fn(Binary64) -> Binary64, A: Fn(Binary64) -> Binary64>(
    time: Binary64,
    knee: Binary64,
    last: Binary64,
    before: B,
    after: A,
    value: Binary64,
) -> bool {
    let zero = Binary64 { bits: 0 };
    if knee.spec_exceeds(time) {
        exists|source: Binary64| #[trigger]
            before.ensures((time,), source) && value == source.spec_clamp(zero, last)
    } else {
        exists|source: Binary64| #[trigger]
            after.ensures((time,), source) && value == source.spec_clamp(zero, last)
    }
}

/// The times in the source that the frames of a note show: `before` tells those before the
/// knee, the consonant, and `after` those from the knee on.
pub fn stretch_times<B: Fn(Binary64) -> Binary64, A: Fn(Binary64) -> Binary64>(
    times: &[Binary64],
    knee: Binary64,
    last: Binary64,
    before: &B,
    after: &A,
) -> (r: Vec<Binary64>)
    requires
        times@.len() > 0 ==> !last.spec_is_nan() && !(Binary64 { bits: 0 }).spec_exceeds(last),
        forall|t: Binary64| #[trigger] before.requires((t,)),
        forall|t: Binary64| #[trigger] after.requires((t,)),
    ensures
        r@.len() == times@.len(),
        forall|i: int|
            0 <= i < r@.len() ==> is_stretched(
                times@[i],
                knee,
                last,
                *before,
                *after,
                #[trigger] r@[i],
            ),
{
    let zero = Binary64 { bits: 0 };
    let mut out: Vec<Binary64> = Vec::new();
    for i in 0..times.len()
        invariant
            zero == (Binary64 { bits: 0 }),
            times@.len() > 0 ==> !last.spec_is_nan() && !zero.spec_exceeds(last),
            forall|t: Binary64| #[trigger] before.requires((t,)),
            forall|t: Binary64| #[trigger] after.requires((t,)),
            out@.len() == i,
            forall|k: int|
                0 <= k < i ==> is_stretched(
                    times@[k],
                    knee,
                    last,
                    *before,
                    *after,
                    #[trigger] out@[k],
                ),
    {
        let source: Binary64 = if knee.exceeds(times[i]) {
            before(times[i])
        } else {
            after(times[i])
        };
        out.push(source.clamp(zero, last));
    }
    out
}

/// Times held between `low` and `high`.
pub open spec fn held_times(times: Seq<Binary64>, low: Binary64, high: Binary64) -> Seq<Binary64> {
    times.map_values(|t: Binary64| t.spec_clamp(low, high))
}

/// Times held between `low` and `high`.
pub fn clamp_times(times: &[Binary64], low: Binary64, high: Binary64) -> (r: Vec<Binary64>)
    requires
        times@.len() > 0 ==> {
            &&& !low.spec_is_nan()
            &&& !high.spec_is_nan()
            &&& !low.spec_exceeds(high)
        },
    ensures
        r@ == held_times(times@, low, high),
{
    let mut out: Vec<Binary64> = Vec::new();
    for i in 0..times.len()
        invariant
            times@.len() > 0 ==> {
                &&& !low.spec_is_nan()
                &&& !high.spec_is_nan()
                &&& !low.spec_exceeds(high)
            },
            out@.len() == i,
            forall|k: int| 0 <= k < i ==> #[trigger] out@[k] == times@[k].spec_clamp(low, high),
    {
        out.push(times[i].clamp(low, high));
    }
    assert(out@ =~= times@.map_values(|t: Binary64| t.spec_clamp(low, high)));
    out
}

/// The samples from `cut_start` to `cut_end`, both held to the length there is; everything
/// where that leaves nothing.
pub open spec fn cut_out<T>(wave: Seq<T>, cut_start: int, cut_end: int) -> Seq<T> {
    let end = if cut_end <= wave.len() {
        cut_end
    } else {
        wave.len() as int
    };
    if cut_start < end {
        wave.subrange(cut_start, end)
    } else {
        wave
    }
}

/// Cut the note out of the vocoder's output: the samples from `cut_start` to `cut_end`,
/// both held to the length there is; everything where that leaves nothing.
pub fn cut_render<T: Copy>(wave: &[T], cut_start: usize, cut_end: usize) -> (r: Vec<T>)
    ensures
        r@ == cut_out(wave@, cut_start as int, cut_end as int),
        wave@.len() > 0 ==> r@.len() > 0,
{
    let end: usize = if cut_end <= wave.len() {
        cut_end
    } else {
        wave.len()
    };
    if cut_start < end {
        vstd::slice::slice_to_vec(vstd::slice::slice_subrange(wave, cut_start, end))
    } else {
        vstd::slice::slice_to_vec(wave)
    }
}

/// The pitch bend of a note in cents, point by point: a single point without bend where
/// there is none.
pub open spec fn bend_of(cents: Seq<i32>) -> Seq<i32> {
    if cents.len() == 0 {
        seq![0i32]
    } else {
        cents
    }
}

/// The pitch bend of a note in cents, point by point: a single point without bend where
/// there is none.
pub fn bend_points(cents: &[i32]) -> (r: Vec<i32>)
    ensures
        r@ == bend_of(cents@),
        r@.len() > 0,
{
    if cents.len() == 0 {
        let mut single: Vec<i32> = Vec::new();
        single.push(0);
        single
    } else {
        vstd::slice::slice_to_vec(cents)
    }
}

/// `r` is the tempo of a note: what is asked for where it is positive, and 120 otherwise.
pub open spec fn is_tempo(tempo: Binary32, r: Binary32) -> bool {
    if !tempo.spec_is_nan() && tempo.units() > 0 {
        r == tempo
    } else {
        r.is_integer(120)
    }
}

/// The tempo of a note: what is asked for where it is positive, and 120 otherwise.
pub fn tempo_or_default(tempo: Binary32) -> (r: Binary32)
    ensures
        is_tempo(tempo, r),
{
    let zero = Binary32 { bits: 0 };
    let default = Binary32 { bits: 0x42f0_0000 };
    proof {
        assert(default.is_integer(120)) by {
            lemma2_to64();
            crate::ieee::lemma_magnitude_of_product(0x42f0_0000, 23, 133, 120, 17);
        }
        assert(zero.units() == 0) by {
            lemma2_to64();
        }
        if !tempo.spec_is_nan() {
            crate::ieee::law_order_key_32(zero, tempo);
        }
    }
    if tempo.exceeds(zero) {
        tempo
    } else {
        default
    }
}

/// The note that sounds: the one asked for, or middle C where it could not be read.
pub fn note_or_default(note: Option<i32>) -> (r: i32)
    ensures
        r == match note {
            Some(number) => number,
            None => 60,
        },
{
    match note {
        Some(number) => number,
        None => 60,
    }
}

// ── Amplitude modulation ──────────────────────────────────────────────

/// `value` is the sample `sample`, query number `query`, scaled by the gain at `x`, which is
/// interpolated between the gains at the nodes.
pub open spec fn is_scaled_sample<
    T,
    G,
    I: Fn(usize, usize, G, G) -> G,
    S: Fn(T, G) -> T,
>(
    nodes: Seq<i64>,
    gains: Seq<G>,
    x: i64,
    query: usize,
    between: I,
    scale: S,
    sample: T,
    value: T,
) -> bool {
    exists|gain: G| #[trigger]
        scale.ensures((sample, gain), value) && crate::interp::is_curve_value(
            nodes,
            gains,
            gains,
            x,
            query,
            between,
            gain,
        )
}

/// `out` is `audio` modulated: each sample is scaled by the gain at its time, the gain at
/// each node following from the derivative of the pitch there.
pub open spec fn is_modulated<
    T,
    P,
    X,
    G,
    E: Fn(P, P, X, X) -> G,
    D: Fn(P, P, P, X, X, X) -> G,
    I: Fn(usize, usize, G, G) -> G,
    S: Fn(T, G) -> T,
>(
    audio: Seq<T>,
    pitch: Seq<P>,
    times: Seq<X>,
    nodes: Seq<i64>,
    queries: Seq<i64>,
    edge: E,
    inner: D,
    between: I,
    scale: S,
    out: Seq<T>,
) -> bool {
    exists|gains: Seq<G>|
        {
            &&& #[trigger] crate::interp::is_gradient(pitch, times, edge, inner, gains)
            &&& out.len() == audio.len()
            &&& forall|j: int|
                0 <= j < out.len() ==> is_scaled_sample(
                    nodes,
                    gains,
                    queries[j],
                    j as usize,
                    between,
                    scale,
                    audio[j],
                    #[trigger] out[j],
                )
        }
}

/// Modulation that is too weak to be applied: less than 0.01 either way.
pub open spec fn is_weak_modulation(strength: Binary64) -> bool {
    strength.spec_magnitude() < HUNDREDTH_64
}

/// There is a gain for every query where only the first `points` nodes have one: there is
/// one for every node, or the nodes increase and no query lies between the last node that
/// has one and the last of all.
pub open spec fn has_gains(nodes: Seq<i64>, points: int, queries: Seq<i64>) -> bool {
    points == nodes.len() || {
        &&& points < nodes.len()
        &&& crate::interp::increasing(nodes)
        &&& forall|j: int|
            0 <= j < queries.len() ==> (#[trigger] queries[j]) <= nodes[points - 1] || queries[j]
                >= nodes.last()
    }
}

/// Modulation that is too weak to be applied: less than 0.01 either way.
pub fn modulation_is_weak(strength: Binary64) -> (r: bool)
    ensures
        r == is_weak_modulation(strength),
{
    strength.magnitude() < HUNDREDTH_64
}

/// Modulate the amplitude of a note with the derivative of its pitch: `edge` and `inner`
/// tell the gain at a point from the point and its neighbours. Fewer than two points of
/// pitch or of time have no derivative: such a note, and any where the strength is weak,
/// stays as it is. `nodes` are the order keys of the times of the points, `queries` those of
/// the times of the samples.
pub fn apply_amplitude_modulation<
    T: Copy,
    P: Copy,
    X: Copy,
    G: Copy,
    E: Fn(P, P, X, X) -> G,
    D: Fn(P, P, P, X, X, X) -> G,
    I: Fn(usize, usize, G, G) -> G,
    S: Fn(T, G) -> T,
>(
    audio: &[T],
    pitch: &[P],
    times: &[X],
    nodes: &[i64],
    queries: &[i64],
    strength: Binary64,
    edge: &E,
    inner: &D,
    between: &I,
    scale: &S,
) -> (r: Vec<T>)
    requires
        times@.len() == nodes@.len(),
        is_weak_modulation(strength) || pitch@.len() < 2 || times@.len() < 2 || has_gains(
            nodes@,
            pitch@.len() as int,
            queries@,
        ),
        audio@.len() == queries@.len(),
        forall|p: P, q: P, x: X, y: X| #[trigger] edge.requires((p, q, x, y)),
        forall|p: P, q: P, r: P, x: X, y: X, z: X| #[trigger]
            inner.requires((p, q, r, x, y, z)),
        forall|i: usize, j: usize, a: G, b: G|
            i + 1 < nodes@.len() && j < queries@.len() ==> #[trigger]
            between.requires((i, j, a, b)),
        forall|s: T, g: G| #[trigger] scale.requires((s, g)),
    ensures
        is_weak_modulation(strength) || pitch@.len() < 2 || times@.len() < 2 ==> r@ == audio@,
        !is_weak_modulation(strength) && pitch@.len() >= 2 && times@.len() >= 2 ==> is_modulated(
            audio@,
            pitch@,
            times@,
            nodes@,
            queries@,
            *edge,
            *inner,
            *between,
            *scale,
            r@,
        ),
{
    if modulation_is_weak(strength) || pitch.len() < 2 || times.len() < 2 {
        return vstd::slice::slice_to_vec(audio);
    }
    let gains: Vec<G> = gradient(pitch, times, edge, inner);
    let points: usize = nodes.len();
    let mut out: Vec<T> = Vec::new();
    for j in 0..audio.len()
        invariant
            points == nodes@.len(),
            2 <= gains@.len() <= points,
            has_gains(nodes@, gains@.len() as int, queries@),
            audio@.len() == queries@.len(),
            forall|i: usize, k: usize, a: G, b: G|
                i + 1 < nodes@.len() && k < queries@.len() ==> #[trigger]
                between.requires((i, k, a, b)),
            forall|s: T, g: G| #[trigger] scale.requires((s, g)),
            out@.len() == j,
            forall|k: int|
                0 <= k < j ==> is_scaled_sample(
                    nodes@,
                    gains@,
                    queries@[k],
                    k as usize,
                    *between,
                    *scale,
                    audio@[k],
                    #[trigger] out@[k],
                ),
    {
        let place: Place = locate(nodes, queries[j]);
        assert(match place {
            Place::Node(i) => i < gains@.len(),
            Place::Between(i) => i + 1 < gains@.len(),
            _ => true,
        }) by {
            let last = gains@.len() - 1;
            if last + 1 < points {
                let x = queries@[j as int];
                assert(x <= nodes@[last] || x >= nodes@.last());
                if let Place::Node(i) = place {
                    assert(i > last ==> nodes@[last] < nodes@[i as int]);
                }
                if let Place::Between(i) = place {
                    assert(i > last ==> nodes@[last] < nodes@[i as int]);
                }
            }
        }
        let value: G = match place {
            Place::Start => gains[0],
            Place::End => gains[gains.len() - 1],
            Place::Node(i) => gains[i],
            Place::Between(i) => between(i, j, gains[i], gains[i + 1]),
        };
        assert(crate::interp::is_place(nodes@, queries@[j as int], place));
        assert(crate::interp::is_curve_value(
            nodes@,
            gains@,
            gains@,
            queries@[j as int],
            j,
            *between,
            value,
        ));
        out.push(scale(audio[j], value));
    }
    out
}

// ── Effects ───────────────────────────────────────────────────────────

/// An effect on a rendered note.
#[derive(Clone, Copy, Debug, PartialEq, Eq, Structural)]
pub enum PostStep {
    /// Modulate the amplitude with the pitch.
    Modulate,
    /// Undo the attenuation of the recording.
    Recover,
    /// Growl.
    Growl,
    /// Normalize the loudness.
    Normalize,
    /// Bring the peak down to the limit.
    Limit,
    /// Apply the volume of the note.
    Volume,
}

/// `step` where it is wanted, and nothing otherwise.
pub open spec fn only_if(wanted: bool, step: PostStep) -> Seq<PostStep> {
    if wanted {
        seq![step]
    } else {
        Seq::empty()
    }
}

/// The recording was attenuated by a factor that can be undone: positive, and not one.
pub open spec fn is_undoable(scale: Binary64) -> bool {
    !scale.spec_is_nan() && scale.units() > 0 && scale.units() != pow2(1074)
}

fn undoes_scale(scale: Binary64) -> (r: bool)
    ensures
        r == is_undoable(scale),
{
    let one = Binary64 { bits: 0x3ff0_0000_0000_0000 };
    let zero = Binary64 { bits: 0 };
    proof {
        crate::ieee::lemma_one_64();
        assert(zero.units() == 0) by {
            lemma2_to64_rest();
        }
        if !scale.spec_is_nan() {
            crate::ieee::law_order_key_64(zero, scale);
            crate::ieee::law_order_key_64(one, scale);
        }
    }
    match scale.order_key() {
        Some(key) => key > 0 && key != 0x3ff0_0000_0000_0000,
        None => false,
    }
}

/// The effects up to the point where the peak of the note is measured.
pub open spec fn spec_steps_before_peak(amplitude: i32, scale: Binary64) -> Seq<PostStep> {
    only_if(amplitude != 0, PostStep::Modulate) + only_if(is_undoable(scale), PostStep::Recover)
}

/// The effects up to the point where the peak of the note is measured.
pub fn steps_before_peak(amplitude: i32, scale: Binary64) -> (r: Vec<PostStep>)
    ensures
        r@ == spec_steps_before_peak(amplitude, scale),
        r@.contains(PostStep::Modulate) <==> amplitude != 0,
        r@.contains(PostStep::Recover) <==> !scale.spec_is_nan() && scale.units() > 0
            && !scale.is_integer(1),
{
    proof {
        law_effects_before_peak(amplitude, scale);
    }
    let mut steps: Vec<PostStep> = Vec::new();
    if amplitude != 0 {
        steps.push(PostStep::Modulate);
    }
    if undoes_scale(scale) {
        steps.push(PostStep::Recover);
    }
    assert(steps@ =~= spec_steps_before_peak(amplitude, scale));
    steps
}

/// The effects that follow once the peak is known.
pub open spec fn spec_steps_after_peak(
    growl: i32,
    wave_norm: bool,
    strength: i32,
    peak: Binary32,
    peak_limit: Binary32,
    volume_differs: bool,
) -> Seq<PostStep> {
    only_if(growl > 0, PostStep::Growl) + only_if(wave_norm && strength > 0, PostStep::Normalize)
        + only_if(peak.spec_exceeds(peak_limit), PostStep::Limit) + only_if(
        volume_differs,
        PostStep::Volume,
    )
}

/// The effects that follow once the peak is known. The volume counts where it differs from
/// one.
pub fn steps_after_peak(
    growl: i32,
    wave_norm: bool,
    strength: i32,
    peak: Binary32,
    peak_limit: Binary32,
    volume_differs: bool,
) -> (r: Vec<PostStep>)
    ensures
        r@ == spec_steps_after_peak(growl, wave_norm, strength, peak, peak_limit, volume_differs),
        r@.contains(PostStep::Growl) <==> growl > 0,
        r@.contains(PostStep::Normalize) <==> wave_norm && strength > 0,
        r@.contains(PostStep::Limit) <==> peak.spec_exceeds(peak_limit),
        r@.contains(PostStep::Volume) <==> volume_differs,
{
    proof {
        law_effects_after_peak(growl, wave_norm, strength, peak, peak_limit, volume_differs);
        crate::ieee::law_exceeds_32(peak, peak_limit);
    }
    let mut steps: Vec<PostStep> = Vec::new();
    if growl > 0 {
        steps.push(PostStep::Growl);
    }
    if wave_norm && strength > 0 {
        steps.push(PostStep::Normalize);
    }
    if peak.exceeds(peak_limit) {
        steps.push(PostStep::Limit);
    }
    if volume_differs {
        steps.push(PostStep::Volume);
    }
    assert(steps@ =~= spec_steps_after_peak(
        growl,
        wave_norm,
        strength,
        peak,
        peak_limit,
        volume_differs,
    ));
    steps
}

// ── Laws ──────────────────────────────────────────────────────────────

/// How far along the way to the features a step lies.
pub open spec fn feature_rank(step: FeatureStep) -> nat {
    match step {
        FeatureStep::LoadCache => 0,
        FeatureStep::ReadWave => 1,
        FeatureStep::Separate => 2,
        FeatureStep::MixPlain | FeatureStep::MixTension => 3,
        FeatureStep::MeasurePeak => 4,
        FeatureStep::Attenuate => 5,
        FeatureStep::Analyze => 6,
        FeatureStep::StoreCache => 7,
        FeatureStep::Done | FeatureStep::Failed => 8,
    }
}

/// The way to the features is over, well or badly.
pub open spec fn is_final(step: FeatureStep) -> bool {
    step is Done || step is Failed
}

/// Every step leads forward until the way is over, so no step is taken twice.
pub proof fn law_features_progress(flags: FeatureFlags, step: FeatureStep, event: FeatureEvent)
    ensures
        is_final(step) <==> spec_next_step(flags, step, event) == step,
        !is_final(step) ==> feature_rank(step) < feature_rank(spec_next_step(flags, step, event)),
{
}

/// Asked to compute features anew, the cache is never looked up; and it is looked up first
/// or not at all.
pub proof fn law_cache_lookup(flags: FeatureFlags, step: FeatureStep, event: FeatureEvent)
    ensures
        flags.gen_cache <==> !(spec_first_step(flags) is LoadCache),
        !(spec_next_step(flags, step, event) is LoadCache),
{
}

/// Where a run from `step` on ends, given what came of each step.
pub open spec fn feature_run(
    flags: FeatureFlags,
    step: FeatureStep,
    events: Seq<FeatureEvent>,
) -> FeatureStep
    decreases events.len(),
{
    if events.len() == 0 {
        step
    } else {
        feature_run(flags, spec_next_step(flags, step, events[0]), events.drop_first())
    }
}

/// How often a run from `step` on takes the step `wanted`, given what came of each step.
pub open spec fn times_taken(
    flags: FeatureFlags,
    step: FeatureStep,
    events: Seq<FeatureEvent>,
    wanted: FeatureStep,
) -> nat
    decreases events.len(),
{
    if events.len() == 0 {
        0
    } else {
        let rest = times_taken(
            flags,
            spec_next_step(flags, step, events[0]),
            events.drop_first(),
            wanted,
        );
        if step == wanted {
            rest + 1
        } else {
            rest
        }
    }
}

/// Eight steps are enough, whatever comes of them.
pub proof fn law_features_arrive(
    flags: FeatureFlags,
    step: FeatureStep,
    events: Seq<FeatureEvent>,
)
    requires
        feature_rank(step) + events.len() >= 8,
    ensures
        is_final(feature_run(flags, step, events)),
    decreases events.len(),
{
    if events.len() > 0 {
        law_features_progress(flags, step, events[0]);
        law_features_arrive(flags, spec_next_step(flags, step, events[0]), events.drop_first());
    }
}

proof fn lemma_stored_on_the_way(
    flags: FeatureFlags,
    step: FeatureStep,
    events: Seq<FeatureEvent>,
)
    requires
        is_final(feature_run(flags, step, events)),
    ensures
        ({
            let failed = feature_run(flags, step, events) is Failed;
            let cached = step is LoadCache && events[0] is Found;
            times_taken(flags, step, events, FeatureStep::StoreCache) == if is_final(step) || failed
                || cached {
                0nat
            } else {
                1nat
            }
        }),
    decreases events.len(),
{
    if events.len() > 0 {
        let next = spec_next_step(flags, step, events[0]);
        law_cache_lookup(flags, step, events[0]);
        lemma_stored_on_the_way(flags, next, events.drop_first());
        lemma_final_stays(flags, next, events.drop_first());
    }
}

proof fn lemma_final_stays(flags: FeatureFlags, step: FeatureStep, events: Seq<FeatureEvent>)
    ensures
        is_final(step) ==> feature_run(flags, step, events) == step,
    decreases events.len(),
{
    if events.len() > 0 && is_final(step) {
        lemma_final_stays(flags, step, events.drop_first());
    }
}

/// Features that do not come from the cache are stored exactly once, whatever comes of
/// storing them; those that come from it are not stored again.
pub proof fn law_features_stored_once(flags: FeatureFlags, events: Seq<FeatureEvent>)
    requires
        feature_run(flags, spec_first_step(flags), events) is Done,
    ensures
        ({
            let first = spec_first_step(flags);
            let cached = first is LoadCache && events[0] is Found;
            times_taken(flags, first, events, FeatureStep::StoreCache) == if cached {
                0nat
            } else {
                1nat
            }
        }),
{
    lemma_stored_on_the_way(flags, spec_first_step(flags), events);
}

/// Where reading or separating the recording fails, there are no features, and nothing is
/// stored.
pub proof fn law_failure_stores_nothing(
    flags: FeatureFlags,
    step: FeatureStep,
    events: Seq<FeatureEvent>,
)
    requires
        events.len() > 0,
        step is ReadWave || step is Separate,
        events[0] is Failed,
    ensures
        feature_run(flags, step, events) is Failed,
        times_taken(flags, step, events, FeatureStep::StoreCache) == 0,
{
    lemma_final_stays(flags, FeatureStep::Failed, events.drop_first());
    lemma_stored_on_the_way(flags, step, events);
}

/// Where a rendering from `step` on ends, given what came of each step.
pub open spec fn render_run(
    null_output: bool,
    step: RenderStep,
    events: Seq<RenderEvent>,
) -> RenderStep
    decreases events.len(),
{
    if events.len() == 0 {
        step
    } else {
        render_run(
            null_output,
            spec_next_render_step(null_output, step, events[0]),
            events.drop_first(),
        )
    }
}

/// How often a rendering from `step` on takes the step `wanted`.
pub open spec fn render_times_taken(
    null_output: bool,
    step: RenderStep,
    events: Seq<RenderEvent>,
    wanted: RenderStep,
) -> nat
    decreases events.len(),
{
    if events.len() == 0 {
        0
    } else {
        let rest = render_times_taken(
            null_output,
            spec_next_render_step(null_output, step, events[0]),
            events.drop_first(),
            wanted,
        );
        if step == wanted {
            rest + 1
        } else {
            rest
        }
    }
}

/// How often a rendering from `step` on takes the step `wanted` without failing in it.
pub open spec fn render_times_finished(
    null_output: bool,
    step: RenderStep,
    events: Seq<RenderEvent>,
    wanted: RenderStep,
) -> nat
    decreases events.len(),
{
    if events.len() == 0 {
        0
    } else {
        let rest = render_times_finished(
            null_output,
            spec_next_render_step(null_output, step, events[0]),
            events.drop_first(),
            wanted,
        );
        if step == wanted && events[0] is Finished {
            rest + 1
        } else {
            rest
        }
    }
}

proof fn lemma_render_over(
    null_output: bool,
    step: RenderStep,
    events: Seq<RenderEvent>,
    wanted: RenderStep,
)
    requires
        step is Done || step is Failed,
        !(wanted is Done) && !(wanted is Failed),
    ensures
        render_run(null_output, step, events) == step,
        render_times_taken(null_output, step, events, wanted) == 0,
        render_times_finished(null_output, step, events, wanted) == 0,
    decreases events.len(),
{
    if events.len() > 0 {
        lemma_render_over(null_output, step, events.drop_first(), wanted);
    }
}

/// Where the output is thrown away, nothing is synthesized and nothing is written.
pub proof fn law_null_output_renders_nothing(events: Seq<RenderEvent>)
    ensures
        render_times_taken(true, RenderStep::Features, events, RenderStep::Synthesize) == 0,
        render_times_taken(true, RenderStep::Features, events, RenderStep::Save) == 0,
{
    if events.len() > 0 {
        let next = spec_next_render_step(true, RenderStep::Features, events[0]);
        lemma_render_over(true, next, events.drop_first(), RenderStep::Synthesize);
        lemma_render_over(true, next, events.drop_first(), RenderStep::Save);
    }
}

proof fn lemma_saves(step: RenderStep, events: Seq<RenderEvent>)
    requires
        !(step is Done) && !(step is Failed),
    ensures
        render_run(false, step, events) is Done ==> render_times_taken(
            false,
            step,
            events,
            RenderStep::Save,
        ) == 1 && render_times_finished(false, step, events, RenderStep::Save) == 1,
        !(render_run(false, step, events) is Done) ==> render_times_finished(
            false,
            step,
            events,
            RenderStep::Save,
        ) == 0,
    decreases events.len(),
{
    if events.len() > 0 {
        let next = spec_next_render_step(false, step, events[0]);
        if next is Done || next is Failed {
            lemma_render_over(false, next, events.drop_first(), RenderStep::Save);
        } else {
            lemma_saves(next, events.drop_first());
        }
    }
}

/// A note that was rendered, to an output that is kept, was written exactly once.
pub proof fn law_rendered_note_is_written_once(events: Seq<RenderEvent>)
    requires
        render_run(false, RenderStep::Features, events) is Done,
    ensures
        render_times_taken(false, RenderStep::Features, events, RenderStep::Save) == 1,
        render_times_finished(false, RenderStep::Features, events, RenderStep::Save) == 1,
{
    lemma_saves(RenderStep::Features, events);
}

/// A rendering that failed has written nothing.
pub proof fn law_failed_rendering_writes_nothing(null_output: bool, events: Seq<RenderEvent>)
    requires
        render_run(null_output, RenderStep::Features, events) is Failed,
    ensures
        render_times_finished(null_output, RenderStep::Features, events, RenderStep::Save) == 0,
{
    if null_output {
        if events.len() > 0 {
            let next = spec_next_render_step(true, RenderStep::Features, events[0]);
            lemma_render_over(true, next, events.drop_first(), RenderStep::Save);
        }
    } else {
        lemma_saves(RenderStep::Features, events);
    }
}

/// A failure before saving, in whichever step, ends the rendering as failed, and saving is
/// not even tried.
pub proof fn law_failure_keeps_from_saving(
    null_output: bool,
    step: RenderStep,
    events: Seq<RenderEvent>,
)
    requires
        events.len() > 0,
        events[0] is Failed,
        step is Features || step is Prepare || step is Synthesize || step is Finish,
    ensures
        render_run(null_output, step, events) is Failed,
        render_times_taken(null_output, step, events, RenderStep::Save) == 0,
{
    lemma_render_over(null_output, RenderStep::Failed, events.drop_first(), RenderStep::Save);
}

/// Five steps are enough to render a note or to fail.
pub proof fn law_rendering_ends(null_output: bool, events: Seq<RenderEvent>)
    requires
        events.len() >= 5,
    ensures
        ({
            let last = render_run(null_output, RenderStep::Features, events);
            last is Done || last is Failed
        }),
{
    lemma_rendering_ends(null_output, RenderStep::Features, events, 5);
}

proof fn lemma_rendering_ends(
    null_output: bool,
    step: RenderStep,
    events: Seq<RenderEvent>,
    left: nat,
)
    requires
        events.len() >= left,
        left >= match step {
            RenderStep::Features => 5nat,
            RenderStep::Prepare => 4,
            RenderStep::Synthesize => 3,
            RenderStep::Finish => 2,
            RenderStep::Save => 1,
            _ => 0,
        },
    ensures
        ({
            let last = render_run(null_output, step, events);
            last is Done || last is Failed
        }),
    decreases left,
{
    if step is Done || step is Failed {
        lemma_render_over(null_output, step, events, RenderStep::Save);
    } else {
        lemma_rendering_ends(
            null_output,
            spec_next_render_step(null_output, step, events[0]),
            events.drop_first(),
            (left - 1) as nat,
        );
    }
}

/// The flag toggles: without it the configuration decides, and with it the mode is the
/// other one.
pub proof fn law_flag_toggles(config_loop_mode: bool)
    ensures
        loops(config_loop_mode, false) == config_loop_mode,
        loops(config_loop_mode, true) == !loops(config_loop_mode, false),
{
}

/// A frame is rendered exactly where it lies no more than `fill` frames outside the part
/// that sounds.
pub proof fn law_rendered_frames(n_frames: int, start: i64, end: i64, fill: int, k: int)
    requires
        0 <= k < n_frames,
        fill >= 0,
    ensures
        left_cut(Some(start), fill) <= k < right_end(n_frames, Some(end), fill) <==> start - fill
            <= k < end + fill,
{
}

/// A larger margin never renders fewer frames.
pub proof fn law_margin_widens(n_frames: int, start: Option<i64>, end: Option<i64>, a: int, b: int)
    requires
        n_frames >= 0,
        0 <= a <= b,
    ensures
        left_cut(start, b) <= left_cut(start, a),
        right_end(n_frames, end, a) <= right_end(n_frames, end, b),
{
}

/// A stretched time is no number, or lies inside the source.
pub proof fn law_stretched_inside<B: Fn(Binary64) -> Binary64, A: Fn(Binary64) -> Binary64>(
    time: Binary64,
    knee: Binary64,
    last: Binary64,
    before: B,
    after: A,
    value: Binary64,
)
    requires
        !last.spec_is_nan(),
        last.units() >= 0,
        is_stretched(time, knee, last, before, after, value),
    ensures
        value.spec_is_nan() || 0 <= value.units() <= last.units(),
{
    let zero = Binary64 { bits: 0 };
    assert(zero.units() == 0) by {
        lemma2_to64_rest();
    }
    let source = if knee.spec_exceeds(time) {
        choose|source: Binary64| #[trigger]
            before.ensures((time,), source) && value == source.spec_clamp(zero, last)
    } else {
        choose|source: Binary64| #[trigger]
            after.ensures((time,), source) && value == source.spec_clamp(zero, last)
    };
    if !source.spec_is_nan() {
        crate::ieee::law_clamp(source, zero, last);
    }
}

/// The place of an effect in the chain.
pub open spec fn effect_rank(step: PostStep) -> nat {
    match step {
        PostStep::Modulate => 0,
        PostStep::Recover => 1,
        PostStep::Growl => 2,
        PostStep::Normalize => 3,
        PostStep::Limit => 4,
        PostStep::Volume => 5,
    }
}

/// A steady pitch modulates nothing: where the gain of a steady pitch is `one`, stays so
/// between two points, and changes no sample, the note stays as it is.
pub proof fn law_steady_pitch_changes_nothing<
    T,
    P,
    X,
    G,
    E: Fn(P, P, X, X) -> G,
    D: Fn(P, P, P, X, X, X) -> G,
    I: Fn(usize, usize, G, G) -> G,
    S: Fn(T, G) -> T,
>(
    audio: Seq<T>,
    pitch: Seq<P>,
    times: Seq<X>,
    nodes: Seq<i64>,
    queries: Seq<i64>,
    edge: E,
    inner: D,
    between: I,
    scale: S,
    out: Seq<T>,
    steady: P,
    one: G,
)
    requires
        is_modulated(audio, pitch, times, nodes, queries, edge, inner, between, scale, out),
        pitch.len() >= 2,
        pitch.len() == nodes.len(),
        forall|i: int| 0 <= i < pitch.len() ==> #[trigger] pitch[i] == steady,
        forall|x: X, y: X, g: G| #[trigger] edge.ensures((steady, steady, x, y), g) ==> g == one,
        forall|x: X, y: X, z: X, g: G| #[trigger]
            inner.ensures((steady, steady, steady, x, y, z), g) ==> g == one,
        forall|i: usize, j: usize, g: G| #[trigger]
            between.ensures((i, j, one, one), g) ==> g == one,
        forall|s: T, t: T| #[trigger] scale.ensures((s, one), t) ==> t == s,
    ensures
        out == audio,
{
    let gains = choose|gains: Seq<G>|
        {
            &&& #[trigger] crate::interp::is_gradient(pitch, times, edge, inner, gains)
            &&& out.len() == audio.len()
            &&& forall|j: int|
                0 <= j < out.len() ==> is_scaled_sample(
                    nodes,
                    gains,
                    queries[j],
                    j as usize,
                    between,
                    scale,
                    audio[j],
                    #[trigger] out[j],
                )
        };
    assert forall|i: int| 0 <= i < gains.len() implies #[trigger] gains[i] == one by {
        assert(crate::interp::is_derivative(pitch, times, edge, inner, i, gains[i]));
        assert(pitch[0] == steady && pitch[1] == steady);
        assert(pitch[pitch.len() - 2] == steady && pitch[pitch.len() - 1] == steady);
        if 0 < i < gains.len() - 1 {
            assert(pitch[i - 1] == steady && pitch[i] == steady && pitch[i + 1] == steady);
        }
    }
    assert forall|j: int| 0 <= j < out.len() implies #[trigger] out[j] == audio[j] by {
        assert(is_scaled_sample(
            nodes,
            gains,
            queries[j],
            j as usize,
            between,
            scale,
            audio[j],
            out[j],
        ));
        let gain = choose|gain: G| #[trigger]
            scale.ensures((audio[j], gain), out[j]) && crate::interp::is_curve_value(
                nodes,
                gains,
                gains,
                queries[j],
                j as usize,
                between,
                gain,
            );
        let place = choose|place: Place| #[trigger]
            crate::interp::is_place(nodes, queries[j], place) && crate::interp::is_curve_value_at(
                gains,
                gains,
                place,
                j as usize,
                between,
                gain,
            );
        assert(gain == one) by {
            if let Place::Between(i) = place {
                assert(gains[i as int] == one && gains[i + 1] == one);
            }
        }
    }
    assert(out =~= audio);
}

/// The places of the effects increase, and lie from `low` up to `high`.
pub open spec fn in_order(steps: Seq<PostStep>, low: nat, high: nat) -> bool {
    &&& forall|i: int| 0 <= i < steps.len() ==> low <= effect_rank(#[trigger] steps[i]) < high
    &&& forall|i: int, j: int|
        0 <= i < j < steps.len() ==> effect_rank(#[trigger] steps[i]) < effect_rank(
            #[trigger] steps[j],
        )
}

proof fn lemma_order_joins(a: Seq<PostStep>, b: Seq<PostStep>, low: nat, mid: nat, high: nat)
    requires
        in_order(a, low, mid),
        in_order(b, mid, high),
        low <= mid <= high,
    ensures
        in_order(a + b, low, high),
{
    let both = a + b;
    assert forall|i: int| 0 <= i < both.len() implies low <= effect_rank(#[trigger] both[i])
        < high by {
        if i < a.len() {
            assert(both[i] == a[i]);
        } else {
            assert(both[i] == b[i - a.len()]);
        }
    }
    assert forall|i: int, j: int| 0 <= i < j < both.len() implies effect_rank(#[trigger] both[i])
        < effect_rank(#[trigger] both[j]) by {
        if j < a.len() {
            assert(both[i] == a[i] && both[j] == a[j]);
        } else if i < a.len() {
            assert(both[i] == a[i] && both[j] == b[j - a.len()]);
        } else {
            assert(both[i] == b[i - a.len()] && both[j] == b[j - a.len()]);
        }
    }
}

/// Effects come in a fixed order, each at most once: those before the peak is measured,
/// then those after.
pub proof fn law_effects_in_order(
    amplitude: i32,
    scale: Binary64,
    growl: i32,
    wave_norm: bool,
    strength: i32,
    peak: Binary32,
    peak_limit: Binary32,
    volume_differs: bool,
)
    ensures
        in_order(spec_steps_before_peak(amplitude, scale) + spec_steps_after_peak(
            growl,
            wave_norm,
            strength,
            peak,
            peak_limit,
            volume_differs,
        ), 0, 6),
{
    let modulate = only_if(amplitude != 0, PostStep::Modulate);
    let recover = only_if(is_undoable(scale), PostStep::Recover);
    let growls = only_if(growl > 0, PostStep::Growl);
    let normalize = only_if(wave_norm && strength > 0, PostStep::Normalize);
    let limit = only_if(peak.spec_exceeds(peak_limit), PostStep::Limit);
    let volume = only_if(volume_differs, PostStep::Volume);
    lemma_order_joins(modulate, recover, 0, 1, 2);
    lemma_order_joins(growls, normalize, 2, 3, 4);
    lemma_order_joins(growls + normalize, limit, 2, 4, 5);
    lemma_order_joins(growls + normalize + limit, volume, 2, 5, 6);
    lemma_order_joins(modulate + recover, growls + normalize + limit + volume, 0, 2, 6);
}

proof fn lemma_no_way_back(
    flags: FeatureFlags,
    step: FeatureStep,
    events: Seq<FeatureEvent>,
    wanted: FeatureStep,
)
    requires
        feature_rank(step) > feature_rank(wanted),
    ensures
        times_taken(flags, step, events, wanted) == 0,
    decreases events.len(),
{
    if events.len() > 0 {
        law_features_progress(flags, step, events[0]);
        lemma_no_way_back(
            flags,
            spec_next_step(flags, step, events[0]),
            events.drop_first(),
            wanted,
        );
    }
}

/// How often a run that ends well takes each step from `step` on: every step of the way
/// that lies ahead once, separation where it is asked for and possible, and after it the
/// mix that the tension calls for.
proof fn lemma_run_counts(flags: FeatureFlags, step: FeatureStep, events: Seq<FeatureEvent>)
    requires
        feature_run(flags, step, events) is Done,
        !is_final(step),
        !(step is LoadCache && events[0] is Found),
    ensures
        ({
            let at = feature_rank(step);
            let separated = step is Separate || at <= 1 && flags.needs_hnsep && flags.model_loaded;
            let tension = step is MixTension || separated && flags.tension != 0;
            let plain = step is MixPlain || separated && flags.tension == 0;
            &&& events.len() > 0
            &&& times_taken(flags, step, events, FeatureStep::LoadCache) == once(at == 0)
            &&& times_taken(flags, step, events, FeatureStep::ReadWave) == once(at <= 1)
            &&& times_taken(flags, step, events, FeatureStep::Separate) == once(separated)
            &&& times_taken(flags, step, events, FeatureStep::MixTension) == once(tension)
            &&& times_taken(flags, step, events, FeatureStep::MixPlain) == once(plain)
            &&& times_taken(flags, step, events, FeatureStep::MeasurePeak) == once(at <= 4)
            &&& times_taken(flags, step, events, FeatureStep::Analyze) == once(at <= 6)
            &&& times_taken(flags, step, events, FeatureStep::StoreCache) == once(at <= 7)
        }),
    decreases events.len(),
{
    if events.len() > 0 {
        let next = spec_next_step(flags, step, events[0]);
        let rest = events.drop_first();
        law_features_progress(flags, step, events[0]);
        law_cache_lookup(flags, step, events[0]);
        lemma_final_stays(flags, next, rest);
        if is_final(next) {
            lemma_no_way_back(flags, next, rest, FeatureStep::LoadCache);
            lemma_no_way_back(flags, next, rest, FeatureStep::ReadWave);
            lemma_no_way_back(flags, next, rest, FeatureStep::Separate);
            lemma_no_way_back(flags, next, rest, FeatureStep::MixTension);
            lemma_no_way_back(flags, next, rest, FeatureStep::MixPlain);
            lemma_no_way_back(flags, next, rest, FeatureStep::MeasurePeak);
            lemma_no_way_back(flags, next, rest, FeatureStep::Analyze);
            lemma_no_way_back(flags, next, rest, FeatureStep::StoreCache);
        } else {
            lemma_run_counts(flags, next, rest);
        }
    }
}

/// One where something happens, and zero where it does not.
pub open spec fn once(happens: bool) -> nat {
    if happens {
        1
    } else {
        0
    }
}

/// Features that do not come from the cache are computed in full, whatever the flags: the
/// recording is read, its peak measured and the recording analysed, each exactly once. It
/// is separated exactly where that is asked for and a model is loaded, and then, and only
/// then, mixed again exactly once: with tension where there is any, of either sign, and
/// plainly where there is none. Features that do come from the cache take nothing else.
pub proof fn law_features_computed_in_full(flags: FeatureFlags, events: Seq<FeatureEvent>)
    requires
        feature_run(flags, spec_first_step(flags), events) is Done,
    ensures
        ({
            let first = spec_first_step(flags);
            let cached = !flags.gen_cache && events[0] is Found;
            let separated = !cached && flags.needs_hnsep && flags.model_loaded;
            &&& times_taken(flags, first, events, FeatureStep::LoadCache) == once(!flags.gen_cache)
            &&& times_taken(flags, first, events, FeatureStep::ReadWave) == once(!cached)
            &&& times_taken(flags, first, events, FeatureStep::Separate) == once(separated)
            &&& times_taken(flags, first, events, FeatureStep::MixTension) == once(
                separated && flags.tension != 0,
            )
            &&& times_taken(flags, first, events, FeatureStep::MixPlain) == once(
                separated && flags.tension == 0,
            )
            &&& times_taken(flags, first, events, FeatureStep::MeasurePeak) == once(!cached)
            &&& times_taken(flags, first, events, FeatureStep::Analyze) == once(!cached)
            &&& times_taken(flags, first, events, FeatureStep::StoreCache) == once(!cached)
        }),
{
    let first = spec_first_step(flags);
    if first is LoadCache && events.len() > 0 && events[0] is Found {
        let rest = events.drop_first();
        let next = spec_next_step(flags, first, events[0]);
        lemma_no_way_back(flags, next, rest, FeatureStep::LoadCache);
        lemma_no_way_back(flags, next, rest, FeatureStep::ReadWave);
        lemma_no_way_back(flags, next, rest, FeatureStep::Separate);
        lemma_no_way_back(flags, next, rest, FeatureStep::MixTension);
        lemma_no_way_back(flags, next, rest, FeatureStep::MixPlain);
        lemma_no_way_back(flags, next, rest, FeatureStep::MeasurePeak);
        lemma_no_way_back(flags, next, rest, FeatureStep::Analyze);
        lemma_no_way_back(flags, next, rest, FeatureStep::StoreCache);
    } else {
        lemma_run_counts(flags, first, events);
    }
}

/// A run in which separation finishes mixes the recording again exactly once: with tension
/// where there is any, of either sign, and plainly where there is none.
pub proof fn law_separation_is_mixed_once(
    flags: FeatureFlags,
    step: FeatureStep,
    events: Seq<FeatureEvent>,
    k: int,
)
    requires
        0 <= k < events.len() - 1,
        feature_run(flags, step, events.take(k)) is Separate,
        !(events[k] is Failed),
    ensures
        flags.tension != 0 ==> times_taken(flags, step, events, FeatureStep::MixTension) == 1
            && times_taken(flags, step, events, FeatureStep::MixPlain) == 0,
        flags.tension == 0 ==> times_taken(flags, step, events, FeatureStep::MixTension) == 0
            && times_taken(flags, step, events, FeatureStep::MixPlain) == 1,
    decreases k,
{
    let next = spec_next_step(flags, step, events[0]);
    let rest = events.drop_first();
    assert(rest.len() == events.len() - 1);
    if k == 0 {
        assert(events.take(0).len() == 0);
        assert(step is Separate);
        let mixed = spec_next_step(flags, next, rest[0]);
        law_features_progress(flags, next, rest[0]);
        lemma_no_way_back(flags, mixed, rest.drop_first(), FeatureStep::MixTension);
        lemma_no_way_back(flags, mixed, rest.drop_first(), FeatureStep::MixPlain);
        assert(times_taken(flags, next, rest, FeatureStep::MixTension) == once(next is MixTension));
        assert(times_taken(flags, next, rest, FeatureStep::MixPlain) == once(next is MixPlain));
    } else {
        assert(events.take(k).drop_first() =~= rest.take(k - 1));
        assert(events.take(k)[0] == events[0]);
        assert(rest[k - 1] == events[k]);
        lemma_rank_grows(flags, step, events.take(k));
        assert(feature_rank(step) <= 2);
        law_separation_is_mixed_once(flags, next, rest, k - 1);
    }
    assert(times_taken(flags, step, events, FeatureStep::MixTension) == times_taken(
        flags,
        next,
        rest,
        FeatureStep::MixTension,
    ));
    assert(times_taken(flags, step, events, FeatureStep::MixPlain) == times_taken(
        flags,
        next,
        rest,
        FeatureStep::MixPlain,
    ));
}

proof fn lemma_rank_grows(flags: FeatureFlags, step: FeatureStep, events: Seq<FeatureEvent>)
    ensures
        feature_rank(step) <= feature_rank(feature_run(flags, step, events)),
    decreases events.len(),
{
    if events.len() > 0 {
        law_features_progress(flags, step, events[0]);
        lemma_rank_grows(flags, spec_next_step(flags, step, events[0]), events.drop_first());
    }
}

/// A recording is attenuated, exactly once, where its peak is a number of at least half of
/// full scale, and left as it is where not.
pub proof fn law_loud_recording_is_attenuated(
    flags: FeatureFlags,
    peak: Binary32,
    events: Seq<FeatureEvent>,
)
    requires
        events.len() >= 2,
        events[0] == FeatureEvent::Peak(peak),
    ensures
        times_taken(flags, FeatureStep::MeasurePeak, events, FeatureStep::Attenuate) == once(
            !peak.spec_is_nan() && 2 * peak.units() >= pow2(149),
        ),
{
    lemma_pow2_unfold(149);
    let next = spec_next_step(flags, FeatureStep::MeasurePeak, events[0]);
    let rest = events.drop_first();
    let after = spec_next_step(flags, next, rest[0]);
    law_features_progress(flags, next, rest[0]);
    lemma_no_way_back(flags, after, rest.drop_first(), FeatureStep::Attenuate);
    assert(times_taken(flags, next, rest, FeatureStep::Attenuate) == once(next is Attenuate));
}

/// A run fails only where reading the recording or separating it failed: a lookup that
/// fails leads on to the recording, and nothing that comes later is in the way.
pub proof fn law_features_fail_for_a_reason(
    flags: FeatureFlags,
    step: FeatureStep,
    events: Seq<FeatureEvent>,
) -> (k: int)
    requires
        !(step is Failed),
        feature_run(flags, step, events) is Failed,
    ensures
        0 <= k < events.len(),
        events[k] is Failed,
        ({
            let at = feature_run(flags, step, events.take(k));
            at is ReadWave || at is Separate
        }),
    decreases events.len(),
{
    let next = spec_next_step(flags, step, events[0]);
    let rest = events.drop_first();
    if next is Failed {
        assert(events.take(0).len() == 0);
        0
    } else {
        let k = law_features_fail_for_a_reason(flags, next, rest);
        assert(events.take(k + 1).drop_first() =~= rest.take(k));
        assert(events.take(k + 1)[0] == events[0]);
        k + 1
    }
}

/// How often a rendering to an output that is kept takes each step.
proof fn lemma_render_counts(step: RenderStep, events: Seq<RenderEvent>)
    requires
        !(step is Done) && !(step is Failed),
        render_run(false, step, events) is Done,
    ensures
        ({
            let prepares = step is Features || step is Prepare;
            let synthesizes = prepares || step is Synthesize;
            let finishes = synthesizes || step is Finish;
            &&& render_times_finished(false, step, events, RenderStep::Features) == once(
                step is Features,
            )
            &&& render_times_finished(false, step, events, RenderStep::Prepare) == once(prepares)
            &&& render_times_finished(false, step, events, RenderStep::Synthesize) == once(
                synthesizes,
            )
            &&& render_times_finished(false, step, events, RenderStep::Finish) == once(finishes)
            &&& render_times_finished(false, step, events, RenderStep::Save) == 1
        }),
    decreases events.len(),
{
    if events.len() > 0 {
        let next = spec_next_render_step(false, step, events[0]);
        let rest = events.drop_first();
        if next is Done || next is Failed {
            lemma_render_over(false, next, rest, RenderStep::Features);
            lemma_render_over(false, next, rest, RenderStep::Prepare);
            lemma_render_over(false, next, rest, RenderStep::Synthesize);
            lemma_render_over(false, next, rest, RenderStep::Finish);
            lemma_render_over(false, next, rest, RenderStep::Save);
        } else {
            lemma_render_counts(next, rest);
        }
    }
}

/// A note that was rendered went through every step, each exactly once: its features were
/// got and stretched, its waveform synthesized, the effects applied and the result written.
/// Where the output is thrown away it is the features alone.
pub proof fn law_rendered_note_took_every_step(null_output: bool, events: Seq<RenderEvent>)
    requires
        render_run(null_output, RenderStep::Features, events) is Done,
    ensures
        ({
            let first = RenderStep::Features;
            &&& render_times_finished(null_output, first, events, RenderStep::Features) == 1
            &&& render_times_finished(null_output, first, events, RenderStep::Prepare) == once(
                !null_output,
            )
            &&& render_times_finished(null_output, first, events, RenderStep::Synthesize) == once(
                !null_output,
            )
            &&& render_times_finished(null_output, first, events, RenderStep::Finish) == once(
                !null_output,
            )
            &&& render_times_finished(null_output, first, events, RenderStep::Save) == once(
                !null_output,
            )
        }),
{
    if null_output {
        let next = spec_next_render_step(true, RenderStep::Features, events[0]);
        let rest = events.drop_first();
        lemma_render_over(true, next, rest, RenderStep::Features);
        lemma_render_over(true, next, rest, RenderStep::Prepare);
        lemma_render_over(true, next, rest, RenderStep::Synthesize);
        lemma_render_over(true, next, rest, RenderStep::Finish);
        lemma_render_over(true, next, rest, RenderStep::Save);
    } else {
        lemma_render_counts(RenderStep::Features, events);
    }
}

/// A rendering ends well exactly where none of its steps failed: five of them, or the first
/// alone where the output is thrown away.
pub proof fn law_rendering_succeeds(null_output: bool, events: Seq<RenderEvent>)
    requires
        events.len() >= 5,
    ensures
        render_run(null_output, RenderStep::Features, events) is Done <==> events[0] is Finished
            && (null_output || events[1] is Finished && events[2] is Finished
            && events[3] is Finished && events[4] is Finished),
{
    let a = events.drop_first();
    let b = a.drop_first();
    let c = b.drop_first();
    let d = c.drop_first();
    let e = d.drop_first();
    lemma_render_over(null_output, RenderStep::Done, a, RenderStep::Save);
    lemma_render_over(null_output, RenderStep::Failed, a, RenderStep::Save);
    lemma_render_over(null_output, RenderStep::Failed, b, RenderStep::Save);
    lemma_render_over(null_output, RenderStep::Failed, c, RenderStep::Save);
    lemma_render_over(null_output, RenderStep::Failed, d, RenderStep::Save);
    lemma_render_over(null_output, RenderStep::Failed, e, RenderStep::Save);
    lemma_render_over(null_output, RenderStep::Done, e, RenderStep::Save);
    reveal_with_fuel(render_run, 6);
    assert(a[0] == events[1] && b[0] == events[2] && c[0] == events[3] && d[0] == events[4]);
}

proof fn lemma_only_if(wanted: bool, step: PostStep, other: PostStep)
    ensures
        only_if(wanted, step).contains(other) <==> wanted && other == step,
        only_if(wanted, step).len() == once(wanted),
{
    if wanted {
        assert(only_if(wanted, step)[0] == step);
    }
}

proof fn lemma_contains_of_both(a: Seq<PostStep>, b: Seq<PostStep>, step: PostStep)
    ensures
        (a + b).contains(step) <==> a.contains(step) || b.contains(step),
{
    let both = a + b;
    if a.contains(step) {
        let i = choose|i: int| 0 <= i < a.len() && a[i] == step;
        assert(both[i] == step);
    }
    if b.contains(step) {
        let i = choose|i: int| 0 <= i < b.len() && b[i] == step;
        assert(both[a.len() + i] == step);
    }
    if both.contains(step) {
        let i = choose|i: int| 0 <= i < both.len() && both[i] == step;
        if i < a.len() {
            assert(a[i] == step);
        } else {
            assert(b[i - a.len()] == step);
        }
    }
}

/// Each effect after the peak is applied for its own reason and whatever the others do: the
/// growl where there is any, the normalization where it is on and has a strength, the limit
/// where the peak is above it, and the volume where it differs. There are as many effects
/// as reasons, and none that belongs before the peak.
pub proof fn law_effects_after_peak(
    growl: i32,
    wave_norm: bool,
    strength: i32,
    peak: Binary32,
    peak_limit: Binary32,
    volume_differs: bool,
)
    ensures
        ({
            let steps = spec_steps_after_peak(
                growl,
                wave_norm,
                strength,
                peak,
                peak_limit,
                volume_differs,
            );
            let over = !peak.spec_is_nan() && !peak_limit.spec_is_nan() && peak.units()
                > peak_limit.units();
            &&& steps.contains(PostStep::Growl) <==> growl > 0
            &&& steps.contains(PostStep::Normalize) <==> wave_norm && strength > 0
            &&& steps.contains(PostStep::Limit) <==> over
            &&& steps.contains(PostStep::Volume) <==> volume_differs
            &&& !steps.contains(PostStep::Modulate)
            &&& !steps.contains(PostStep::Recover)
            &&& steps.len() == once(growl > 0) + once(wave_norm && strength > 0) + once(over)
                + once(volume_differs)
        }),
{
    let over = peak.spec_exceeds(peak_limit);
    crate::ieee::law_exceeds_32(peak, peak_limit);
    lemma_chain(growl > 0, wave_norm && strength > 0, over, volume_differs, PostStep::Growl);
    lemma_chain(growl > 0, wave_norm && strength > 0, over, volume_differs, PostStep::Normalize);
    lemma_chain(growl > 0, wave_norm && strength > 0, over, volume_differs, PostStep::Limit);
    lemma_chain(growl > 0, wave_norm && strength > 0, over, volume_differs, PostStep::Volume);
    lemma_chain(growl > 0, wave_norm && strength > 0, over, volume_differs, PostStep::Modulate);
    lemma_chain(growl > 0, wave_norm && strength > 0, over, volume_differs, PostStep::Recover);
}

proof fn lemma_chain(growls: bool, normalizes: bool, limits: bool, changes: bool, step: PostStep)
    ensures
        ({
            let steps = only_if(growls, PostStep::Growl) + only_if(normalizes, PostStep::Normalize)
                + only_if(limits, PostStep::Limit) + only_if(changes, PostStep::Volume);
            &&& steps.contains(step) <==> {
                ||| growls && step == PostStep::Growl
                ||| normalizes && step == PostStep::Normalize
                ||| limits && step == PostStep::Limit
                ||| changes && step == PostStep::Volume
            }
            &&& steps.len() == once(growls) + once(normalizes) + once(limits) + once(changes)
        }),
{
    let a = only_if(growls, PostStep::Growl);
    let b = only_if(normalizes, PostStep::Normalize);
    let c = only_if(limits, PostStep::Limit);
    let d = only_if(changes, PostStep::Volume);
    lemma_contains_of_both(a + b + c, d, step);
    lemma_contains_of_both(a + b, c, step);
    lemma_contains_of_both(a, b, step);
    lemma_only_if(growls, PostStep::Growl, step);
    lemma_only_if(normalizes, PostStep::Normalize, step);
    lemma_only_if(limits, PostStep::Limit, step);
    lemma_only_if(changes, PostStep::Volume, step);
}

/// Each effect before the peak is applied for its own reason: the modulation where it has
/// an amplitude, of either sign, and the recovery where the recording was scaled by a
/// positive factor other than one.
pub proof fn law_effects_before_peak(amplitude: i32, scale: Binary64)
    ensures
        ({
            let steps = spec_steps_before_peak(amplitude, scale);
            let scaled = !scale.spec_is_nan() && scale.units() > 0 && !scale.is_integer(1);
            &&& steps.contains(PostStep::Modulate) <==> amplitude != 0
            &&& steps.contains(PostStep::Recover) <==> scaled
            &&& steps.len() == once(amplitude != 0) + once(scaled)
        }),
{
    let modulate = only_if(amplitude != 0, PostStep::Modulate);
    let recover = only_if(is_undoable(scale), PostStep::Recover);
    assert forall|step: PostStep|
        (modulate + recover).contains(step) == (modulate.contains(step) || recover.contains(
            step,
        )) by {
        lemma_contains_of_both(modulate, recover, step);
    }
    lemma_only_if(amplitude != 0, PostStep::Modulate, PostStep::Modulate);
    lemma_only_if(amplitude != 0, PostStep::Modulate, PostStep::Recover);
    lemma_only_if(is_undoable(scale), PostStep::Recover, PostStep::Modulate);
    lemma_only_if(is_undoable(scale), PostStep::Recover, PostStep::Recover);
}

/// The plan for a note: a frame is rendered exactly where it is one of the note's frames
/// that lies no more than `fill` frames before the part that sounds and no more than `fill`
/// frames behind it; a side that is no number is open. There is no plan exactly where there
/// is no such frame.
pub proof fn law_plan(
    n_frames: int,
    start: Option<i64>,
    end: Option<i64>,
    fill: int,
    r: Result<FramePlan, RenderError>,
    k: int,
)
    requires
        n_frames >= 0,
        fill >= 0,
        is_planned(n_frames, start, end, fill, r),
        0 <= k < n_frames,
    ensures
        ({
            let wanted = (start matches Some(s) ==> s - fill <= k) && (end matches Some(e) ==> k < e
                + fill);
            &&& r matches Ok(plan) ==> (wanted <==> plan.first <= k < plan.end)
            &&& r matches Ok(plan) ==> plan.first < plan.end <= n_frames
            &&& r is Err ==> !wanted
        }),
{
}

/// A note is cut out where there is something to cut: from `cut_start` on, up to `cut_end`
/// or the end of the samples, whichever comes first. A cut that would leave nothing leaves
/// everything.
pub proof fn law_cut_out<T>(wave: Seq<T>, cut_start: int, cut_end: int, i: int)
    requires
        cut_start >= 0,
        cut_end >= 0,
    ensures
        ({
            let r = cut_out(wave, cut_start, cut_end);
            &&& r.len() == 0 <==> wave.len() == 0
            &&& cut_start >= cut_end || cut_start >= wave.len() ==> r == wave
            &&& cut_start <= i < cut_end && i < wave.len() ==> r[i - cut_start] == wave[i]
            &&& cut_start < cut_end && cut_start < wave.len() ==> r.len() <= cut_end - cut_start
                && (r.len() == cut_end - cut_start || r.len() == wave.len() - cut_start)
        }),
{
}

/// A time before the knee goes by the rule before it, any other by the rule behind it, and
/// the rule decides wherever it stays inside the source. What it puts before the source or
/// behind its end is the start or the end.
pub proof fn law_stretched_by_rule<B: Fn(Binary64) -> Binary64, A: Fn(Binary64) -> Binary64>(
    time: Binary64,
    knee: Binary64,
    last: Binary64,
    before: B,
    after: A,
    value: Binary64,
)
    requires
        !time.spec_is_nan(),
        !knee.spec_is_nan(),
        !last.spec_is_nan(),
        last.units() >= 0,
        is_stretched(time, knee, last, before, after, value),
    ensures
        time.units() < knee.units() ==> exists|source: Binary64| #[trigger]
            before.ensures((time,), source) && is_held(source, last, value),
        time.units() >= knee.units() ==> exists|source: Binary64| #[trigger]
            after.ensures((time,), source) && is_held(source, last, value),
{
    let zero = Binary64 { bits: 0 };
    crate::ieee::law_zero_64(zero);
    crate::ieee::law_exceeds_64(knee, time);
    let source = if knee.spec_exceeds(time) {
        choose|source: Binary64| #[trigger]
            before.ensures((time,), source) && value == source.spec_clamp(zero, last)
    } else {
        choose|source: Binary64| #[trigger]
            after.ensures((time,), source) && value == source.spec_clamp(zero, last)
    };
    crate::ieee::law_clamp_nearest(source, zero, last);
    if !source.spec_is_nan() {
        crate::ieee::law_clamp(source, zero, last);
    }
    assert(is_held(source, last, value));
}

/// `value` is `source` held between zero and `last`.
pub open spec fn is_held(source: Binary64, last: Binary64, value: Binary64) -> bool {
    &&& source.spec_is_nan() || 0 <= source.units() <= last.units() ==> value == source
    &&& !source.spec_is_nan() && source.units() < 0 ==> value.units() == 0
    &&& !source.spec_is_nan() && source.units() > last.units() ==> value == last
}

/// Modulation is weak exactly where its strength is less than the float nearest to 0.01,
/// either way: `hundredth`, which is no further from it than half the distance between
/// floats there. What is no number is not weak.
pub proof fn law_weak_modulation(strength: Binary64, hundredth: Binary64)
    requires
        hundredth.units() > 0,
        -(100 * pow2(1015)) <= 2 * (100 * hundredth.units() - pow2(1074)) <= 100 * pow2(1015),
    ensures
        is_weak_modulation(strength) <==> !strength.spec_is_nan() && -hundredth.units()
            < strength.units() < hundredth.units(),
{
    crate::ieee::lemma_hundredth_64(hundredth);
    let magnitude = strength.spec_magnitude() as nat;
    if magnitude < HUNDREDTH_64 {
        crate::ieee::lemma_magnitude_units_increase(magnitude, HUNDREDTH_64 as nat, 52);
    }
    if magnitude > HUNDREDTH_64 {
        crate::ieee::lemma_magnitude_units_increase(HUNDREDTH_64 as nat, magnitude, 52);
    }
}

/// A sample is scaled by the derivative of the pitch at its time: by that of a point at the
/// point, by what is drawn between those of two neighbouring points between them, and by
/// that of the first or the last point outside them.
pub proof fn law_modulation_follows_pitch<
    T,
    P,
    X,
    G,
    E: Fn(P, P, X, X) -> G,
    D: Fn(P, P, P, X, X, X) -> G,
    I: Fn(usize, usize, G, G) -> G,
    S: Fn(T, G) -> T,
>(
    audio: Seq<T>,
    pitch: Seq<P>,
    times: Seq<X>,
    nodes: Seq<i64>,
    queries: Seq<i64>,
    edge: E,
    inner: D,
    between: I,
    scale: S,
    out: Seq<T>,
    i: int,
    j: int,
)
    requires
        is_modulated(audio, pitch, times, nodes, queries, edge, inner, between, scale, out),
        pitch.len() == nodes.len() >= 2,
        crate::interp::increasing(nodes),
        0 <= i < nodes.len() - 1,
        0 <= j < audio.len(),
    ensures
        out.len() == audio.len(),
        exists|gains: Seq<G>, gain: G|
            {
                &&& #[trigger] crate::interp::is_gradient(pitch, times, edge, inner, gains)
                &&& #[trigger] scale.ensures((audio[j], gain), out[j])
                &&& queries[j] <= nodes[0] ==> gain == gains[0]
                &&& queries[j] >= nodes.last() ==> gain == gains.last()
                &&& queries[j] == nodes[i] ==> gain == gains[i]
                &&& nodes[i] < queries[j] < nodes[i + 1] ==> between.ensures(
                    (i as usize, j as usize, gains[i], gains[i + 1]),
                    gain,
                )
            },
{
    let gains = choose|gains: Seq<G>|
        {
            &&& #[trigger] crate::interp::is_gradient(pitch, times, edge, inner, gains)
            &&& out.len() == audio.len()
            &&& forall|k: int|
                0 <= k < out.len() ==> is_scaled_sample(
                    nodes,
                    gains,
                    queries[k],
                    k as usize,
                    between,
                    scale,
                    audio[k],
                    #[trigger] out[k],
                )
        };
    assert(is_scaled_sample(
        nodes,
        gains,
        queries[j],
        j as usize,
        between,
        scale,
        audio[j],
        out[j],
    ));
    let gain = choose|gain: G| #[trigger]
        scale.ensures((audio[j], gain), out[j]) && crate::interp::is_curve_value(
            nodes,
            gains,
            gains,
            queries[j],
            j as usize,
            between,
            gain,
        );
    assert(nodes[0] < nodes[nodes.len() - 1]);
    crate::interp::law_curve_value(
        nodes,
        gains,
        gains,
        queries[j],
        j as usize,
        between,
        gain,
        i,
    );
    assert(crate::interp::is_gradient(pitch, times, edge, inner, gains) && scale.ensures(
        (audio[j], gain),
        out[j],
    ));
}

/// A mix is as long as the shortest of its three parts, and tells them apart: what is mixed
/// as the recording is the recording, what is mixed as its harmonics its harmonics, and
/// what is mixed as sounding what is to sound.
pub proof fn law_mix_tells_parts_apart<T, F: Fn(T, T, T) -> T>(
    wave: Seq<T>,
    harmonic: Seq<T>,
    voiced: Seq<T>,
    mix: F,
    out: Seq<T>,
)
    requires
        is_mixed(wave, harmonic, voiced, mix, out),
    ensures
        out.len() <= wave.len() && out.len() <= harmonic.len() && out.len() <= voiced.len(),
        out.len() == wave.len() || out.len() == harmonic.len() || out.len() == voiced.len(),
        (forall|w: T, h: T, v: T, r: T| #[trigger] mix.ensures((w, h, v), r) ==> r == w) ==> out
            == wave.take(out.len() as int),
        (forall|w: T, h: T, v: T, r: T| #[trigger] mix.ensures((w, h, v), r) ==> r == h) ==> out
            == harmonic.take(out.len() as int),
        (forall|w: T, h: T, v: T, r: T| #[trigger] mix.ensures((w, h, v), r) ==> r == v) ==> out
            == voiced.take(out.len() as int),
{
}

/// The tempo that counts is a positive number: the one asked for where that is one.
pub proof fn law_tempo_is_positive(tempo: Binary32, r: Binary32)
    requires
        is_tempo(tempo, r),
    ensures
        !r.spec_is_nan(),
        r.units() > 0,
        r != tempo ==> r.units() == 120 * pow2(149),
        r != tempo ==> tempo.spec_is_nan() || tempo.units() <= 0,
{
    lemma_pow2_pos(149);
}

/// The part of a recording that a note uses ends where the sign of the cutoff says: counted
/// from the start for a negative one, and from the end for any other, zero of either sign
/// among them.
pub proof fn law_source_end(cutoff: Binary32, from_start: Binary64, from_end: Binary64)
    ensures
        !cutoff.spec_is_nan() && cutoff.units() < 0 ==> end_of_source(cutoff, from_start, from_end)
            == from_start,
        cutoff.spec_is_nan() || cutoff.units() >= 0 ==> end_of_source(cutoff, from_start, from_end)
            == from_end,
{
}

/// A note is stretched by `ratio` exactly where more is wanted than is available, and left
/// as long as it is otherwise.
pub proof fn law_never_shortened(
    available: Binary64,
    wanted: Binary64,
    ratio: Binary64,
    r: Binary64,
)
    requires
        is_stretch_ratio(available, wanted, ratio, r),
        !available.spec_is_nan(),
        !wanted.spec_is_nan(),
    ensures
        wanted.units() > available.units() ==> r == ratio,
        wanted.units() <= available.units() ==> !r.spec_is_nan() && r.units() == pow2(1074),
{
    crate::ieee::law_exceeds_64(wanted, available);
}

/// Times that are held all lie between the bounds, in their order, and those that lay there
/// are as they were.
pub proof fn law_times_held(times: Seq<Binary64>, low: Binary64, high: Binary64, i: int)
    requires
        !low.spec_is_nan(),
        !high.spec_is_nan(),
        low.units() <= high.units(),
        0 <= i < times.len(),
        !times[i].spec_is_nan(),
    ensures
        held_times(times, low, high).len() == times.len(),
        low.units() <= held_times(times, low, high)[i].units() <= high.units(),
        low.units() <= times[i].units() <= high.units() ==> held_times(times, low, high)[i]
            == times[i],
        times[i].units() < low.units() ==> held_times(times, low, high)[i] == low,
        times[i].units() > high.units() ==> held_times(times, low, high)[i] == high,
{
    crate::ieee::law_clamp(times[i], low, high);
    crate::ieee::law_clamp_nearest(times[i], low, high);
}

/// There is always a point of pitch bend, and where points are given they are all that
/// counts.
pub proof fn law_bend_has_points(cents: Seq<i32>)
    ensures
        bend_of(cents).len() > 0,
        cents.len() > 0 ==> bend_of(cents) == cents,
        bend_of(cents).len() > 1 || bend_of(cents)[0] != 0 ==> bend_of(cents) == cents,
{
}

} // verus!
