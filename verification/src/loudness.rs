//! Loudness: the recursive weighting filter, gated measurement over blocks, finding the
//! voiced part of a note, and rebuilding a note around its normalized part.
//!
//! Levels and powers are 64-bit floats that the caller's closures compute; which blocks
//! count and which samples are touched is decided here.

use crate::frames::measure_frames;
use crate::ieee::{Binary64, HUNDREDTH_64, INFINITY_64};
use crate::reflect::reflect_extend;
use vstd::arithmetic::div_mod::*;
use vstd::arithmetic::mul::*;
use vstd::arithmetic::power2::*;
use vstd::prelude::*;

verus! {

// ── Weighting filter ──────────────────────────────────────────────────

/// The value `back` places before `i`, or `zero` before the start.
pub open spec fn delayed<T>(values: Seq<T>, i: int, back: int, zero: T) -> T {
    if i >= back {
        values[i - back]
    } else {
        zero
    }
}

/// Output `i` is `step` of input `i` and of the two inputs and two outputs before it.
pub open spec fn is_biquad_output<T, F: Fn(T, T, T, T, T) -> T>(
    step: F,
    input: Seq<T>,
    output: Seq<T>,
    zero: T,
    i: int,
) -> bool {
    step.ensures(
        (
            input[i],
            delayed(input, i, 1, zero),
            delayed(input, i, 2, zero),
            delayed(output, i, 1, zero),
            delayed(output, i, 2, zero),
        ),
        output[i],
    )
}

/// Apply a second-order recursive filter.
pub fn apply_biquad<T: Copy, F: Fn(T, T, T, T, T) -> T>(input: &[T], zero: T, step: &F) -> (r: Vec<
    T,
>)
    requires
        forall|x0: T, x1: T, x2: T, y1: T, y2: T| #[trigger] step.requires((x0, x1, x2, y1, y2)),
    ensures
        is_biquad(*step, input@, r@, zero),
{
    let mut out: Vec<T> = Vec::new();
    let mut x1: T = zero;
    let mut x2: T = zero;
    let mut y1: T = zero;
    let mut y2: T = zero;
    for i in 0..input.len()
        invariant
            forall|a: T, b: T, c: T, d: T, e: T| #[trigger] step.requires((a, b, c, d, e)),
            out@.len() == i,
            x1 == delayed(input@, i as int, 1, zero),
            x2 == delayed(input@, i as int, 2, zero),
            y1 == delayed(out@, i as int, 1, zero),
            y2 == delayed(out@, i as int, 2, zero),
            forall|j: int|
                0 <= j < i ==> #[trigger] is_biquad_output(*step, input@, out@, zero, j),
    {
        let x0: T = input[i];
        let y0: T = step(x0, x1, x2, y1, y2);
        let ghost before = out@;
        out.push(y0);
        proof {
            assert forall|j: int| 0 <= j < i implies #[trigger] is_biquad_output(
                *step,
                input@,
                out@,
                zero,
                j,
            ) by {
                assert(is_biquad_output(*step, input@, before, zero, j));
            }
            assert(is_biquad_output(*step, input@, out@, zero, i as int));
        }
        x2 = x1;
        x1 = x0;
        y2 = y1;
        y1 = y0;
    }
    out
}

/// `output` is `input` filtered by `step`, sample by sample.
pub open spec fn is_biquad<T, F: Fn(T, T, T, T, T) -> T>(
    step: F,
    input: Seq<T>,
    output: Seq<T>,
    zero: T,
) -> bool {
    &&& output.len() == input.len()
    &&& forall|i: int|
        0 <= i < output.len() ==> #[trigger] is_biquad_output(step, input, output, zero, i)
}

/// `weighted` is `audio` after the two filters of the weighting: the shelf, then the
/// high-pass.
pub open spec fn is_k_weighted<T, F: Fn(T, T, T, T, T) -> T, H: Fn(T, T, T, T, T) -> T>(
    audio: Seq<T>,
    zero: T,
    shelf: F,
    highpass: H,
    weighted: Seq<T>,
) -> bool {
    exists|shelved: Seq<T>| #[trigger]
        is_biquad(shelf, audio, shelved, zero) && is_biquad(highpass, shelved, weighted, zero)
}

/// Weight a signal as it is heard: the shelf filter, then the high-pass filter.
pub fn k_weighted<T: Copy, F: Fn(T, T, T, T, T) -> T, H: Fn(T, T, T, T, T) -> T>(
    audio: &[T],
    zero: T,
    shelf: &F,
    highpass: &H,
) -> (r: Vec<T>)
    requires
        forall|x0: T, x1: T, x2: T, y1: T, y2: T| #[trigger] shelf.requires((x0, x1, x2, y1, y2)),
        forall|x0: T, x1: T, x2: T, y1: T, y2: T| #[trigger]
            highpass.requires((x0, x1, x2, y1, y2)),
    ensures
        r@.len() == audio@.len(),
        is_k_weighted(audio@, zero, *shelf, *highpass, r@),
{
    let shelved: Vec<T> = apply_biquad(audio, zero, shelf);
    let weighted: Vec<T> = apply_biquad(shelved.as_slice(), zero, highpass);
    assert(is_biquad(*shelf, audio@, shelved@, zero));
    weighted
}

// ── Gated measurement ─────────────────────────────────────────────────

/// The outcome of a loudness measurement.
#[derive(Clone, Copy, Debug, PartialEq, Eq, Structural)]
pub enum Loudness {
    /// Nothing audible: minus infinity.
    Silent,
    /// The mean power of what was counted.
    Power(Binary64),
}

/// The bit pattern of 1e-20, the power below which a short signal is silent.
pub const SILENT_POWER: u64 = 0x3bc7_9ca1_0c92_4223;

/// The powers that are not below the threshold `gate`, in order.
pub open spec fn gated(powers: Seq<Binary64>, gate: Binary64) -> Seq<Binary64> {
    powers.filter(|power: Binary64| power.spec_reaches(gate))
}

/// Keep the powers that are not below the threshold `gate`, in order.
pub fn apply_gate(powers: &[Binary64], gate: Binary64) -> (r: Vec<Binary64>)
    ensures
        r@ == gated(powers@, gate),
{
    let mut kept: Vec<Binary64> = Vec::new();
    let ghost open = |power: Binary64| power.spec_reaches(gate);
    for i in 0..powers.len()
        invariant
            open == |power: Binary64| power.spec_reaches(gate),
            kept@ == powers@.take(i as int).filter(open),
    {
        let power: Binary64 = powers[i];
        let ghost before = powers@.take(i as int);
        assert(powers@.take(i + 1) =~= before.push(power));
        proof {
            before.lemma_filter_push(power, open);
        }
        if power.reaches(gate) {
            kept.push(power);
        }
    }
    assert(powers@.take(powers@.len() as int) =~= powers@);
    kept
}

/// `r` is the gated loudness of blocks with the given powers: the mean of those not below
/// the absolute threshold that are not below the one that `relative` puts under their mean
/// either.
pub open spec fn is_gated_loudness<M: Fn(&[Binary64]) -> Binary64, G: Fn(Binary64) -> Binary64>(
    powers: Seq<Binary64>,
    absolute: Binary64,
    mean: M,
    relative: G,
    r: Loudness,
) -> bool {
    let audible = gated(powers, absolute);
    if audible.len() == 0 {
        r == Loudness::Silent
    } else {
        exists|level: Binary64, gate: Binary64|
            {
                let counted = gated(audible, gate);
                &&& crate::frames::measures(mean, audible, level)
                &&& #[trigger] relative.ensures((level,), gate)
                &&& match r {
                    Loudness::Silent => counted.len() == 0,
                    Loudness::Power(power) => counted.len() > 0 && crate::frames::measures(
                        mean,
                        counted,
                        power,
                    ),
                }
            }
    }
}

/// Loudness of blocks with the given powers, gated absolutely and then relatively.
pub fn gate_blocks<M: Fn(&[Binary64]) -> Binary64, G: Fn(Binary64) -> Binary64>(
    powers: &[Binary64],
    absolute: Binary64,
    mean: &M,
    relative: &G,
) -> (r: Loudness)
    requires
        forall|part: &[Binary64]| #[trigger] mean.requires((part,)),
        forall|level: Binary64| #[trigger] relative.requires((level,)),
    ensures
        is_gated_loudness(powers@, absolute, *mean, *relative, r),
{
    let audible: Vec<Binary64> = apply_gate(powers, absolute);
    if audible.len() == 0 {
        return Loudness::Silent;
    }
    let level: Binary64 = mean(audible.as_slice());
    assert(crate::frames::measures(*mean, audible@, level));
    let gate: Binary64 = relative(level);
    let counted: Vec<Binary64> = apply_gate(audible.as_slice(), gate);
    assert(relative.ensures((level,), gate));
    if counted.len() == 0 {
        return Loudness::Silent;
    }
    let power: Binary64 = mean(counted.as_slice());
    assert(crate::frames::measures(*mean, counted@, power));
    Loudness::Power(power)
}

/// `r` is the loudness of a weighted signal measured in blocks of `block` samples, three
/// quarters of which overlap. A signal shorter than a block is measured as a whole.
pub open spec fn is_loudness<
    S,
    P: Fn(&[S]) -> Binary64,
    M: Fn(&[Binary64]) -> Binary64,
    G: Fn(Binary64) -> Binary64,
>(
    weighted: Seq<S>,
    block: int,
    absolute: Binary64,
    power: P,
    mean: M,
    relative: G,
    r: Loudness,
) -> bool {
    if weighted.len() == 0 {
        r == Loudness::Silent
    } else if weighted.len() < block {
        exists|whole: Binary64|
            {
                &&& #[trigger] crate::frames::measures(power, weighted, whole)
                &&& r == if (Binary64 { bits: SILENT_POWER }).spec_exceeds(whole) {
                    Loudness::Silent
                } else {
                    Loudness::Power(whole)
                }
            }
    } else {
        exists|powers: Seq<Binary64>|
            {
                &&& #[trigger] crate::frames::measures_frames(
                    power,
                    weighted,
                    block,
                    block / 4,
                    powers,
                )
                &&& is_gated_loudness(powers, absolute, mean, relative, r)
            }
    }
}

/// Measure the loudness of a weighted signal in overlapping blocks.
pub fn measure_weighted<
    S,
    P: Fn(&[S]) -> Binary64,
    M: Fn(&[Binary64]) -> Binary64,
    G: Fn(Binary64) -> Binary64,
>(
    weighted: &[S],
    block_samples: usize,
    absolute: Binary64,
    power: &P,
    mean: &M,
    relative: &G,
) -> (r: Loudness)
    requires
        block_samples >= 4 || weighted@.len() < block_samples || weighted@.len() == 0,
        forall|part: &[S]| #[trigger] power.requires((part,)),
        forall|part: &[Binary64]| #[trigger] mean.requires((part,)),
        forall|level: Binary64| #[trigger] relative.requires((level,)),
    ensures
        is_loudness(
            weighted@,
            block_samples as int,
            absolute,
            *power,
            *mean,
            *relative,
            r,
        ),
{
    if weighted.len() == 0 {
        return Loudness::Silent;
    }
    if weighted.len() < block_samples {
        let whole: Binary64 = power(weighted);
        assert(crate::frames::measures(*power, weighted@, whole));
        let silent = Binary64 { bits: SILENT_POWER };
        if silent.exceeds(whole) {
            return Loudness::Silent;
        }
        return Loudness::Power(whole);
    }
    let powers: Vec<Binary64> = measure_frames(weighted, block_samples, block_samples / 4, power);
    gate_blocks(powers.as_slice(), absolute, mean, relative)
}

/// `r` is the loudness of a signal: weighted by the two filters, and measured in blocks.
pub open spec fn is_weighted_loudness<
    S,
    F: Fn(S, S, S, S, S) -> S,
    H: Fn(S, S, S, S, S) -> S,
    P: Fn(&[S]) -> Binary64,
    M: Fn(&[Binary64]) -> Binary64,
    G: Fn(Binary64) -> Binary64,
>(
    audio: Seq<S>,
    block: int,
    absolute: Binary64,
    zero: S,
    shelf: F,
    highpass: H,
    power: P,
    mean: M,
    relative: G,
    r: Loudness,
) -> bool {
    exists|weighted: Seq<S>|
        {
            &&& #[trigger] is_k_weighted(audio, zero, shelf, highpass, weighted)
            &&& is_loudness(weighted, block, absolute, power, mean, relative, r)
        }
}

/// Measure the loudness of a signal: weight it, and measure it in overlapping blocks.
pub fn measure_lufs<
    S: Copy,
    F: Fn(S, S, S, S, S) -> S,
    H: Fn(S, S, S, S, S) -> S,
    P: Fn(&[S]) -> Binary64,
    M: Fn(&[Binary64]) -> Binary64,
    G: Fn(Binary64) -> Binary64,
>(
    audio: &[S],
    block_samples: usize,
    absolute: Binary64,
    zero: S,
    shelf: &F,
    highpass: &H,
    power: &P,
    mean: &M,
    relative: &G,
) -> (r: Loudness)
    requires
        block_samples >= 4 || audio@.len() < block_samples || audio@.len() == 0,
        forall|x0: S, x1: S, x2: S, y1: S, y2: S| #[trigger] shelf.requires((x0, x1, x2, y1, y2)),
        forall|x0: S, x1: S, x2: S, y1: S, y2: S| #[trigger]
            highpass.requires((x0, x1, x2, y1, y2)),
        forall|part: &[S]| #[trigger] power.requires((part,)),
        forall|part: &[Binary64]| #[trigger] mean.requires((part,)),
        forall|level: Binary64| #[trigger] relative.requires((level,)),
    ensures
        is_weighted_loudness(
            audio@,
            block_samples as int,
            absolute,
            zero,
            *shelf,
            *highpass,
            *power,
            *mean,
            *relative,
            r,
        ),
{
    let weighted: Vec<S> = k_weighted(audio, zero, shelf, highpass);
    measure_weighted(weighted.as_slice(), block_samples, absolute, power, mean, relative)
}

/// `found` is what `gain` makes of a measured loudness: nothing where the loudness is not
/// finite, that is where the part is silent or its power zero or infinite.
pub open spec fn is_gain<K, G: Fn(Binary64) -> K>(
    loudness: Loudness,
    gain: G,
    found: Option<K>,
) -> bool {
    match loudness {
        Loudness::Silent => found is None,
        Loudness::Power(power) => if power.spec_magnitude() == 0 || power.bits == INFINITY_64 {
            found is None
        } else {
            found matches Some(k) && gain.ensures((power,), k)
        },
    }
}

/// The gain that follows from a measured loudness, if it is finite.
pub fn gain_of<K, G: Fn(Binary64) -> K>(loudness: Loudness, gain: &G) -> (r: Option<K>)
    requires
        forall|power: Binary64| #[trigger] gain.requires((power,)),
    ensures
        is_gain(loudness, *gain, r),
{
    match loudness {
        Loudness::Silent => None,
        Loudness::Power(power) => if power.magnitude() == 0 || power.bits == INFINITY_64 {
            None
        } else {
            Some(gain(power))
        },
    }
}

// ── Voiced part ───────────────────────────────────────────────────────

/// Samples in a level window of 20 ms.
pub open spec fn level_window(sample_rate: int) -> int {
    sample_rate / 50
}

/// Samples between level windows: 10 ms.
pub open spec fn level_hop(sample_rate: int) -> int {
    sample_rate / 100
}

/// Windows of silence kept after the last voiced one: 100 ms worth of hops.
pub open spec fn tail_windows(sample_rate: int) -> int {
    (sample_rate / 10) / level_hop(sample_rate)
}

/// Level of each 20 ms window, 10 ms apart, and the number of samples between them.
pub fn frame_rms_db<S, L: Fn(&[S]) -> Binary64>(audio: &[S], sample_rate: u32, level: &L) -> (r: (
    Vec<Binary64>,
    usize,
))
    requires
        sample_rate >= 100 || audio@.len() < level_window(sample_rate as int),
        forall|part: &[S]| #[trigger] level.requires((part,)),
    ensures
        crate::frames::measures_frames(
            *level,
            audio@,
            level_window(sample_rate as int),
            level_hop(sample_rate as int),
            r.0@,
        ),
        r.1 == level_hop(sample_rate as int),
{
    let window: usize = (sample_rate / 50) as usize;
    let hop: usize = (sample_rate / 100) as usize;
    assert(audio.len() <= usize::MAX);
    (measure_frames(audio, window, hop, level), hop)
}

/// Some window is not below the threshold.
pub open spec fn has_voice(levels: Seq<Binary64>, threshold: Binary64) -> bool {
    exists|k: int| 0 <= k < levels.len() && (#[trigger] levels[k]).spec_reaches(threshold)
}

/// `k` is the first window not below the threshold.
pub open spec fn is_first_voiced(levels: Seq<Binary64>, threshold: Binary64, k: int) -> bool {
    &&& 0 <= k < levels.len()
    &&& levels[k].spec_reaches(threshold)
    &&& forall|j: int| 0 <= j < k ==> !(#[trigger] levels[j]).spec_reaches(threshold)
}

/// `k` is the last window not below the threshold.
pub open spec fn is_last_voiced(levels: Seq<Binary64>, threshold: Binary64, k: int) -> bool {
    &&& 0 <= k < levels.len()
    &&& levels[k].spec_reaches(threshold)
    &&& forall|j: int| k < j < levels.len() ==> !(#[trigger] levels[j]).spec_reaches(threshold)
}

/// `start..end` is the voiced part of `len` samples with the given levels: from the first
/// voiced window to 100 ms past the last, or everything where nothing is voiced.
pub open spec fn is_voiced_range(
    levels: Seq<Binary64>,
    len: int,
    sample_rate: int,
    threshold: Binary64,
    start: int,
    end: int,
) -> bool {
    if has_voice(levels, threshold) {
        exists|first: int, last: int|
            {
                let hop = level_hop(sample_rate);
                let tail = (last + 1 + tail_windows(sample_rate)) * hop + level_window(sample_rate);
                &&& #[trigger] is_first_voiced(levels, threshold, first)
                &&& #[trigger] is_last_voiced(levels, threshold, last)
                &&& start == first * hop
                &&& end == if tail <= len {
                    tail
                } else {
                    len
                }
            }
    } else {
        start == 0 && end == len
    }
}

/// The first and the last window not below the threshold.
pub fn find_voiced(levels: &[Binary64], threshold: Binary64) -> (r: Option<(usize, usize)>)
    ensures
        r is Some <==> has_voice(levels@, threshold),
        r matches Some((first, last)) ==> is_first_voiced(levels@, threshold, first as int)
            && is_last_voiced(levels@, threshold, last as int),
{
    let mut found: Option<(usize, usize)> = None;
    for i in 0..levels.len()
        invariant
            match found {
                None => forall|j: int|
                    0 <= j < i ==> !(#[trigger] levels@[j]).spec_reaches(threshold),
                Some((first, last)) => {
                    &&& is_first_voiced(levels@, threshold, first as int)
                    &&& first < i
                    &&& is_last_voiced(levels@.take(i as int), threshold, last as int)
                },
            },
    {
        let ghost upto = levels@.take(i as int);
        let ghost next = levels@.take(i + 1);
        assert(next =~= upto.push(levels@[i as int]));
        if levels[i].reaches(threshold) {
            found =
            match found {
                None => {
                    assert(is_last_voiced(next, threshold, i as int));
                    Some((i, i))
                },
                Some((first, _)) => Some((first, i)),
            };
            assert(is_last_voiced(next, threshold, i as int));
        } else {
            assert forall|last: int| is_last_voiced(upto, threshold, last) implies is_last_voiced(
                next,
                threshold,
                last,
            ) by {
                assert(next[last] == upto[last]);
                assert forall|j: int| last < j < next.len() implies !(
                #[trigger] next[j]).spec_reaches(threshold) by {
                    if j < i {
                        assert(next[j] == upto[j]);
                    }
                }
            }
        }
    }
    assert(levels@.take(levels@.len() as int) =~= levels@);
    found
}

/// Trim a note to the part that loudness is measured on: the samples, and where they start
/// and end.
pub fn trim_silence_range<S: Copy, L: Fn(&[S]) -> Binary64>(
    audio: &[S],
    sample_rate: u32,
    threshold: Binary64,
    level: &L,
) -> (r: (Vec<S>, usize, usize))
    requires
        sample_rate >= 100 || audio@.len() < level_window(sample_rate as int),
        audio@.len() + sample_rate <= usize::MAX,
        forall|part: &[S]| #[trigger] level.requires((part,)),
    ensures
        exists|levels: Seq<Binary64>|
            {
                &&& #[trigger] crate::frames::measures_frames(
                    *level,
                    audio@,
                    level_window(sample_rate as int),
                    level_hop(sample_rate as int),
                    levels,
                )
                &&& is_voiced_range(
                    levels,
                    audio@.len() as int,
                    sample_rate as int,
                    threshold,
                    r.1 as int,
                    r.2 as int,
                )
            },
        r.1 <= r.2 <= audio@.len(),
        audio@.len() > 0 ==> r.1 < r.2,
        r.0@ == audio@.subrange(r.1 as int, r.2 as int),
{
    let (levels, hop) = frame_rms_db(audio, sample_rate, level);
    let len: usize = audio.len();
    match find_voiced(levels.as_slice(), threshold) {
        None => {
            assert(audio@.subrange(0, len as int) =~= audio@);
            (vstd::slice::slice_to_vec(audio), 0, len)
        },
        Some((first, last)) => {
            let tail: usize = ((sample_rate / 10) as usize) / hop;
            let window: usize = (sample_rate / 50) as usize;
            proof {
                lemma_voiced_range_fits(
                    len as int,
                    sample_rate as int,
                    levels@.len() as int,
                    first as int,
                );
                lemma_voiced_range_fits(
                    len as int,
                    sample_rate as int,
                    levels@.len() as int,
                    last as int,
                );
                assert(first * hop <= last * hop) by (nonlinear_arith)
                    requires
                        first <= last,
                        hop >= 0,
                ;
                assert(last * hop <= (last + 1 + tail) * hop) by (nonlinear_arith)
                    requires
                        hop >= 0,
                        tail >= 0,
                ;
            }
            let start: usize = first * hop;
            let reach: usize = (last + 1 + tail) * hop + window;
            let end: usize = if reach <= len {
                reach
            } else {
                len
            };
            assert(is_first_voiced(levels@, threshold, first as int) && is_last_voiced(
                levels@,
                threshold,
                last as int,
            ));
            let part: &[S] = vstd::slice::slice_subrange(audio, start, end);
            (vstd::slice::slice_to_vec(part), start, end)
        },
    }
}

proof fn lemma_voiced_range_fits(len: int, sample_rate: int, count: int, k: int)
    requires
        len >= 0,
        100 <= sample_rate,
        count == crate::frames::frame_count(len, level_window(sample_rate), level_hop(sample_rate)),
        0 <= k < count,
    ensures
        0 <= k * level_hop(sample_rate),
        k * level_hop(sample_rate) + level_window(sample_rate) <= len,
        (k + 1 + tail_windows(sample_rate)) * level_hop(sample_rate) + level_window(sample_rate)
            <= len + sample_rate,
        level_window(sample_rate) >= 1,
        k + 1 + tail_windows(sample_rate) <= len + sample_rate,
{
    let hop = level_hop(sample_rate);
    let tail = tail_windows(sample_rate);
    crate::frames::lemma_frame_fits(len, level_window(sample_rate), hop, k);
    lemma_fundamental_div_mod(sample_rate / 10, hop);
    assert((k + 1 + tail) * hop == k * hop + hop + hop * tail) by (nonlinear_arith);
    assert(k + 1 + tail <= (k + 1 + tail) * hop) by (nonlinear_arith)
        requires
            hop >= 1,
            k + 1 + tail >= 0,
    ;
    assert(tail >= 0) by (nonlinear_arith)
        requires
            tail == (sample_rate / 10) / hop,
            sample_rate >= 0,
            hop >= 1,
    ;
}

// ── Rebuilding a normalized note ──────────────────────────────────────

/// Samples over which a normalized part of `available` samples fades out: 200 ms, or a
/// quarter of the part.
pub open spec fn fade_samples(available: int, sample_rate: int) -> int {
    if sample_rate / 5 <= available / 4 {
        sample_rate / 5
    } else {
        available / 4
    }
}

/// Sample `i` of a note whose part `start..end` was normalized: silence before the part;
/// inside it the gain, fading out towards its end over `fade` samples; behind it the note
/// itself, fading in over as many samples as `fade` and the rest allow.
pub open spec fn is_rebuilt_at<
    S,
    K,
    C: Fn(S, K) -> S,
    O: Fn(S, K, usize, usize) -> S,
    I: Fn(S, usize, usize) -> S,
>(
    audio: Seq<S>,
    start: int,
    end: int,
    fade: int,
    gain: K,
    zero: S,
    scale: C,
    fade_out: O,
    fade_in: I,
    i: int,
    out: S,
) -> bool {
    let cross = if fade <= audio.len() - end {
        fade
    } else {
        audio.len() - end
    };
    if i < start {
        out == zero
    } else if i < end - fade {
        scale.ensures((audio[i], gain), out)
    } else if i < end {
        fade_out.ensures((audio[i], gain, (i - (end - fade)) as usize, fade as usize), out)
    } else if i < end + cross {
        fade_in.ensures((audio[i], (i - end) as usize, cross as usize), out)
    } else {
        out == audio[i]
    }
}

/// Rebuild a note around its normalized part `start..end`.
pub fn rebuild<
    S: Copy,
    K: Copy,
    C: Fn(S, K) -> S,
    O: Fn(S, K, usize, usize) -> S,
    I: Fn(S, usize, usize) -> S,
>(
    audio: &[S],
    start: usize,
    end: usize,
    sample_rate: u32,
    gain: K,
    zero: S,
    scale: &C,
    fade_out: &O,
    fade_in: &I,
) -> (r: Vec<S>)
    requires
        start <= end <= audio@.len(),
        forall|x: S, k: K| #[trigger] scale.requires((x, k)),
        forall|x: S, k: K, pos: usize, len: usize|
            pos < len ==> #[trigger] fade_out.requires((x, k, pos, len)),
        forall|x: S, pos: usize, len: usize|
            pos < len ==> #[trigger] fade_in.requires((x, pos, len)),
    ensures
        r@.len() == audio@.len(),
        forall|i: int|
            0 <= i < r@.len() ==> is_rebuilt_at(
                audio@,
                start as int,
                end as int,
                fade_samples(end - start, sample_rate as int),
                gain,
                zero,
                *scale,
                *fade_out,
                *fade_in,
                i,
                #[trigger] r@[i],
            ),
{
    let available: usize = end - start;
    let limit: usize = (sample_rate / 5) as usize;
    let fade: usize = if limit <= available / 4 {
        limit
    } else {
        available / 4
    };
    let rest: usize = audio.len() - end;
    let cross: usize = if fade <= rest {
        fade
    } else {
        rest
    };
    let mut out: Vec<S> = Vec::new();
    for i in 0..audio.len()
        invariant
            start <= end <= audio@.len(),
            fade == fade_samples(end - start, sample_rate as int),
            fade <= end - start,
            cross <= rest == audio@.len() - end,
            cross == if fade <= rest {
                fade
            } else {
                rest
            },
            forall|x: S, k: K| #[trigger] scale.requires((x, k)),
            forall|x: S, k: K, pos: usize, len: usize|
                pos < len ==> #[trigger] fade_out.requires((x, k, pos, len)),
            forall|x: S, pos: usize, len: usize|
            pos < len ==> #[trigger] fade_in.requires((x, pos, len)),
            out@.len() == i,
            forall|j: int|
                0 <= j < i ==> is_rebuilt_at(
                    audio@,
                    start as int,
                    end as int,
                    fade as int,
                    gain,
                    zero,
                    *scale,
                    *fade_out,
                    *fade_in,
                    j,
                    #[trigger] out@[j],
                ),
    {
        let x: S = audio[i];
        let y: S = if i < start {
            zero
        } else if i < end - fade {
            scale(x, gain)
        } else if i < end {
            fade_out(x, gain, i - (end - fade), fade)
        } else if i - end < cross {
            fade_in(x, i - end, cross)
        } else {
            x
        };
        out.push(y);
    }
    out
}

/// `start..end` is the part that is measured: the voiced part, or everything.
pub open spec fn is_measured_range<S, L: Fn(&[S]) -> Binary64>(
    audio: Seq<S>,
    sample_rate: int,
    trim_silence: bool,
    threshold: Binary64,
    level: L,
    start: int,
    end: int,
) -> bool {
    if trim_silence {
        exists|levels: Seq<Binary64>|
            {
                &&& #[trigger] crate::frames::measures_frames(
                    level,
                    audio,
                    level_window(sample_rate),
                    level_hop(sample_rate),
                    levels,
                )
                &&& is_voiced_range(levels, audio.len() as int, sample_rate, threshold, start, end)
            }
    } else {
        start == 0 && end == audio.len()
    }
}

/// `wide` is what `widen` makes of each sample.
pub open spec fn are_widened<S, D, W: Fn(S) -> D>(
    samples: Seq<S>,
    widen: W,
    wide: Seq<D>,
) -> bool {
    &&& wide.len() == samples.len()
    &&& forall|i: int| 0 <= i < wide.len() ==> widen.ensures((samples[i],), #[trigger] wide[i])
}

/// `r` is the loudness of a part of a note: widened, weighted, and measured in blocks.
pub open spec fn is_part_loudness<
    S,
    D,
    W: Fn(S) -> D,
    F: Fn(D, D, D, D, D) -> D,
    H: Fn(D, D, D, D, D) -> D,
    P: Fn(&[D]) -> Binary64,
    M: Fn(&[Binary64]) -> Binary64,
    R: Fn(Binary64) -> Binary64,
>(
    part: Seq<S>,
    block: int,
    absolute: Binary64,
    zero_wide: D,
    widen: W,
    shelf: F,
    highpass: H,
    power: P,
    mean: M,
    relative: R,
    r: Loudness,
) -> bool {
    exists|wide: Seq<D>, weighted: Seq<D>|
        {
            &&& #[trigger] are_widened(part, widen, wide)
            &&& #[trigger] is_k_weighted(wide, zero_wide, shelf, highpass, weighted)
            &&& is_loudness(weighted, block, absolute, power, mean, relative, r)
        }
}

/// Measure the loudness of a part of a note.
pub fn measure_part<
    S: Copy,
    D: Copy,
    W: Fn(S) -> D,
    F: Fn(D, D, D, D, D) -> D,
    H: Fn(D, D, D, D, D) -> D,
    P: Fn(&[D]) -> Binary64,
    M: Fn(&[Binary64]) -> Binary64,
    R: Fn(Binary64) -> Binary64,
>(
    part: &[S],
    block_samples: usize,
    absolute: Binary64,
    zero_wide: D,
    widen: &W,
    shelf: &F,
    highpass: &H,
    power: &P,
    mean: &M,
    relative: &R,
) -> (r: Loudness)
    requires
        block_samples >= 4 || part@.len() < block_samples || part@.len() == 0,
        forall|x: S| #[trigger] widen.requires((x,)),
        forall|x0: D, x1: D, x2: D, y1: D, y2: D| #[trigger] shelf.requires((x0, x1, x2, y1, y2)),
        forall|x0: D, x1: D, x2: D, y1: D, y2: D| #[trigger]
            highpass.requires((x0, x1, x2, y1, y2)),
        forall|block: &[D]| #[trigger] power.requires((block,)),
        forall|powers: &[Binary64]| #[trigger] mean.requires((powers,)),
        forall|level: Binary64| #[trigger] relative.requires((level,)),
    ensures
        is_part_loudness(
            part@,
            block_samples as int,
            absolute,
            zero_wide,
            *widen,
            *shelf,
            *highpass,
            *power,
            *mean,
            *relative,
            r,
        ),
{
    let mut wide: Vec<D> = Vec::new();
    for i in 0..part.len()
        invariant
            forall|x: S| #[trigger] widen.requires((x,)),
            wide@.len() == i,
            forall|k: int| 0 <= k < i ==> widen.ensures((part@[k],), #[trigger] wide@[k]),
    {
        wide.push(widen(part[i]));
    }
    assert(are_widened(part@, *widen, wide@));
    measure_lufs(
        wide.as_slice(),
        block_samples,
        absolute,
        zero_wide,
        shelf,
        highpass,
        power,
        mean,
        relative,
    )
}

/// `out` is `audio` with the gain that follows from the loudness of its part `start..end`,
/// if there is one.
pub open spec fn is_gained<
    S,
    K,
    G: Fn(Binary64) -> K,
    C: Fn(S, K) -> S,
    O: Fn(S, K, usize, usize) -> S,
    I: Fn(S, usize, usize) -> S,
>(
    audio: Seq<S>,
    sample_rate: int,
    start: int,
    end: int,
    zero: S,
    loudness: Loudness,
    gain: G,
    scale: C,
    fade_out: O,
    fade_in: I,
    out: Seq<S>,
) -> bool {
    exists|found: Option<K>|
        {
            &&& #[trigger] is_gain(loudness, gain, found)
            &&& match found {
                None => out == audio,
                Some(k) => {
                    &&& out.len() == audio.len()
                    &&& forall|i: int|
                        0 <= i < out.len() ==> if start == 0 && end == audio.len() {
                            scale.ensures((audio[i], k), #[trigger] out[i])
                        } else {
                            is_rebuilt_at(
                                audio,
                                start,
                                end,
                                fade_samples(end - start, sample_rate),
                                k,
                                zero,
                                scale,
                                fade_out,
                                fade_in,
                                i,
                                out[i],
                            )
                        }
                },
            }
        }
}

/// Apply the gain that follows from the loudness of the part `start..end` of a note.
pub fn apply_gain<
    S: Copy,
    K: Copy,
    G: Fn(Binary64) -> K,
    C: Fn(S, K) -> S,
    O: Fn(S, K, usize, usize) -> S,
    I: Fn(S, usize, usize) -> S,
>(
    audio: &[S],
    sample_rate: u32,
    start: usize,
    end: usize,
    zero: S,
    loudness: Loudness,
    gain: &G,
    scale: &C,
    fade_out: &O,
    fade_in: &I,
) -> (r: Vec<S>)
    requires
        start <= end <= audio@.len(),
        forall|power: Binary64| #[trigger] gain.requires((power,)),
        forall|x: S, k: K| #[trigger] scale.requires((x, k)),
        forall|x: S, k: K, pos: usize, len: usize|
            pos < len ==> #[trigger] fade_out.requires((x, k, pos, len)),
        forall|x: S, pos: usize, len: usize|
            pos < len ==> #[trigger] fade_in.requires((x, pos, len)),
    ensures
        r@.len() == audio@.len(),
        loudness == Loudness::Silent ==> r@ == audio@,
        r@ != audio@ ==> forall|i: int| 0 <= i < start ==> #[trigger] r@[i] == zero,
        forall|i: int|
            end <= i < r@.len() && (5 * (i - end) >= sample_rate || 4 * (i - end) >= end - start)
                ==> #[trigger] r@[i] == audio@[i],
        is_gained(
            audio@,
            sample_rate as int,
            start as int,
            end as int,
            zero,
            loudness,
            *gain,
            *scale,
            *fade_out,
            *fade_in,
            r@,
        ),
{
    let found: Option<K> = gain_of(loudness, gain);
    assert(is_gain(loudness, *gain, found));
    match found {
        None => vstd::slice::slice_to_vec(audio),
        Some(k) => {
            if start == 0 && end == audio.len() {
                let mut out: Vec<S> = Vec::new();
                for i in 0..audio.len()
                    invariant
                        forall|x: S, y: K| #[trigger] scale.requires((x, y)),
                        out@.len() == i,
                        forall|j: int|
                            0 <= j < i ==> scale.ensures((audio@[j], k), #[trigger] out@[j]),
                {
                    out.push(scale(audio[i], k));
                }
                out
            } else {
                rebuild(audio, start, end, sample_rate, k, zero, scale, fade_out, fade_in)
            }
        },
    }
}

/// `out` is `audio` with the gain that was measured on `start..end`, carried on to
/// `min_block` samples where it is shorter.
pub open spec fn is_normalized<
    S,
    D,
    K,
    W: Fn(S) -> D,
    F: Fn(D, D, D, D, D) -> D,
    H: Fn(D, D, D, D, D) -> D,
    P: Fn(&[D]) -> Binary64,
    M: Fn(&[Binary64]) -> Binary64,
    R: Fn(Binary64) -> Binary64,
    G: Fn(Binary64) -> K,
    C: Fn(S, K) -> S,
    O: Fn(S, K, usize, usize) -> S,
    I: Fn(S, usize, usize) -> S,
>(
    audio: Seq<S>,
    sample_rate: int,
    min_block: int,
    start: int,
    end: int,
    zero: S,
    block: int,
    absolute: Binary64,
    zero_wide: D,
    widen: W,
    shelf: F,
    highpass: H,
    power: P,
    mean: M,
    relative: R,
    gain: G,
    scale: C,
    fade_out: O,
    fade_in: I,
    out: Seq<S>,
) -> bool {
    let part = crate::reflect::reflect_extended(audio.subrange(start, end), min_block);
    exists|loudness: Loudness|
        {
            &&& #[trigger] is_part_loudness(
                part,
                block,
                absolute,
                zero_wide,
                widen,
                shelf,
                highpass,
                power,
                mean,
                relative,
                loudness,
            )
            &&& is_gained(
                audio,
                sample_rate,
                start,
                end,
                zero,
                loudness,
                gain,
                scale,
                fade_out,
                fade_in,
                out,
            )
        }
}

/// Strength that is too weak to be applied: less than 0.01.
pub open spec fn is_weak_strength(strength: Binary64) -> bool {
    (Binary64 { bits: HUNDREDTH_64 }).spec_exceeds(strength)
}

/// Strength that is too weak to be applied: less than 0.01.
pub fn strength_is_weak(strength: Binary64) -> (r: bool)
    ensures
        r == is_weak_strength(strength),
{
    let hundredth = Binary64 { bits: HUNDREDTH_64 };
    hundredth.exceeds(strength)
}

/// The part `start..end`, carried on to `min_block` samples, can be measured in blocks of
/// `block` samples, three quarters of which overlap: blocks too short to advance have no
/// place in it.
pub open spec fn can_measure(start: int, end: int, min_block: int, block: int) -> bool {
    block >= 4 || (end - start < block && min_block < block)
}

/// Normalize the loudness of a note.
///
/// The part that counts is measured, carried on by reflection to `min_block` samples where
/// it is shorter: widened, weighted by the two filters, and gated in blocks of
/// `block_samples` samples. `gain` makes a gain of its power. A note without samples comes
/// back as it is, and so does any note where the strength is weak or the part is silent.
pub fn loudness_normalize<
    S: Copy,
    D: Copy,
    K: Copy,
    L: Fn(&[S]) -> Binary64,
    W: Fn(S) -> D,
    F: Fn(D, D, D, D, D) -> D,
    H: Fn(D, D, D, D, D) -> D,
    P: Fn(&[D]) -> Binary64,
    M: Fn(&[Binary64]) -> Binary64,
    R: Fn(Binary64) -> Binary64,
    G: Fn(Binary64) -> K,
    C: Fn(S, K) -> S,
    O: Fn(S, K, usize, usize) -> S,
    I: Fn(S, usize, usize) -> S,
>(
    audio: &[S],
    sample_rate: u32,
    strength: Binary64,
    trim_silence: bool,
    silence_threshold: Binary64,
    min_block: usize,
    zero: S,
    level: &L,
    block_samples: usize,
    absolute: Binary64,
    zero_wide: D,
    widen: &W,
    shelf: &F,
    highpass: &H,
    power: &P,
    mean: &M,
    relative: &R,
    gain: &G,
    scale: &C,
    fade_out: &O,
    fade_in: &I,
) -> (r: Vec<S>)
    requires
        audio@.len() > 0 && !is_weak_strength(strength) ==> {
            &&& trim_silence ==> sample_rate >= 100 || audio@.len() < level_window(
                sample_rate as int,
            )
            &&& trim_silence ==> audio@.len() + sample_rate <= usize::MAX
            &&& 2 * audio@.len() <= usize::MAX
            &&& forall|start: int, end: int|
                0 <= start < end <= audio@.len() && #[trigger] is_measured_range(
                    audio@,
                    sample_rate as int,
                    trim_silence,
                    silence_threshold,
                    *level,
                    start,
                    end,
                ) ==> can_measure(start, end, min_block as int, block_samples as int)
        },
        forall|part: &[S]| #[trigger] level.requires((part,)),
        forall|x: S| #[trigger] widen.requires((x,)),
        forall|x0: D, x1: D, x2: D, y1: D, y2: D| #[trigger] shelf.requires((x0, x1, x2, y1, y2)),
        forall|x0: D, x1: D, x2: D, y1: D, y2: D| #[trigger]
            highpass.requires((x0, x1, x2, y1, y2)),
        forall|block: &[D]| #[trigger] power.requires((block,)),
        forall|powers: &[Binary64]| #[trigger] mean.requires((powers,)),
        forall|p: Binary64| #[trigger] relative.requires((p,)),
        forall|p: Binary64| #[trigger] gain.requires((p,)),
        forall|x: S, k: K| #[trigger] scale.requires((x, k)),
        forall|x: S, k: K, pos: usize, len: usize|
            pos < len ==> #[trigger] fade_out.requires((x, k, pos, len)),
        forall|x: S, pos: usize, len: usize|
            pos < len ==> #[trigger] fade_in.requires((x, pos, len)),
    ensures
        r@.len() == audio@.len(),
        audio@.len() == 0 || is_weak_strength(strength) ==> r@ == audio@,
        audio@.len() > 0 && !is_weak_strength(strength) ==> exists|start: int, end: int|
            {
                &&& 0 <= start < end <= audio@.len()
                &&& #[trigger] is_measured_range(
                    audio@,
                    sample_rate as int,
                    trim_silence,
                    silence_threshold,
                    *level,
                    start,
                    end,
                )
                &&& is_normalized(
                    audio@,
                    sample_rate as int,
                    min_block as int,
                    start,
                    end,
                    zero,
                    block_samples as int,
                    absolute,
                    zero_wide,
                    *widen,
                    *shelf,
                    *highpass,
                    *power,
                    *mean,
                    *relative,
                    *gain,
                    *scale,
                    *fade_out,
                    *fade_in,
                    r@,
                )
                &&& r@ != audio@ ==> forall|i: int| 0 <= i < start ==> #[trigger] r@[i] == zero
                &&& forall|i: int|
                    end <= i < r@.len() && (5 * (i - end) >= sample_rate || 4 * (i - end) >= end
                        - start) ==> #[trigger] r@[i] == audio@[i]
            },
{
    if audio.len() == 0 || strength_is_weak(strength) {
        return vstd::slice::slice_to_vec(audio);
    }
    let (trimmed, start, end): (Vec<S>, usize, usize) = if trim_silence {
        trim_silence_range(audio, sample_rate, silence_threshold, level)
    } else {
        assert(audio@.subrange(0, audio@.len() as int) =~= audio@);
        (vstd::slice::slice_to_vec(audio), 0, audio.len())
    };
    assert(is_measured_range(
        audio@,
        sample_rate as int,
        trim_silence,
        silence_threshold,
        *level,
        start as int,
        end as int,
    ));
    let part: Vec<S> = reflect_extend(trimmed.as_slice(), min_block);
    let loudness: Loudness = measure_part(
        part.as_slice(),
        block_samples,
        absolute,
        zero_wide,
        widen,
        shelf,
        highpass,
        power,
        mean,
        relative,
    );
    apply_gain(
        audio,
        sample_rate,
        start,
        end,
        zero,
        loudness,
        gain,
        scale,
        fade_out,
        fade_in,
    )
}

/// A gain in decibels held to the largest boost that is allowed; gains that boost nothing
/// are not touched.
pub open spec fn capped(gain_db: Binary64, max_boost_db: Binary64) -> Binary64 {
    if gain_db.spec_exceeds(Binary64 { bits: 0 }) && gain_db.spec_exceeds(max_boost_db) {
        max_boost_db
    } else {
        gain_db
    }
}

/// A gain in decibels held to the largest boost that is allowed; gains that boost nothing
/// are not touched.
pub fn cap_boost(gain_db: Binary64, max_boost_db: Binary64) -> (r: Binary64)
    ensures
        r == capped(gain_db, max_boost_db),
{
    let zero = Binary64 { bits: 0 };
    if gain_db.exceeds(zero) && gain_db.exceeds(max_boost_db) {
        max_boost_db
    } else {
        gain_db
    }
}

// ── Laws ──────────────────────────────────────────────────────────────

/// The voiced range holds every voiced window whole.
pub proof fn law_voiced_windows_kept(
    levels: Seq<Binary64>,
    len: int,
    sample_rate: int,
    threshold: Binary64,
    start: int,
    end: int,
    k: int,
)
    requires
        len >= 0,
        sample_rate >= 100,
        levels.len() == crate::frames::frame_count(
            len,
            level_window(sample_rate),
            level_hop(sample_rate),
        ),
        is_voiced_range(levels, len, sample_rate, threshold, start, end),
        0 <= k < levels.len(),
        levels[k].spec_reaches(threshold),
    ensures
        start <= k * level_hop(sample_rate),
        k * level_hop(sample_rate) + level_window(sample_rate) <= end,
{
    let hop = level_hop(sample_rate);
    let (first, last) = choose|first: int, last: int|
        {
            let tail = (last + 1 + tail_windows(sample_rate)) * hop + level_window(sample_rate);
            &&& #[trigger] is_first_voiced(levels, threshold, first)
            &&& #[trigger] is_last_voiced(levels, threshold, last)
            &&& start == first * hop
            &&& end == if tail <= len {
                tail
            } else {
                len
            }
        };
    assert(first <= k <= last);
    lemma_voiced_range_fits(len, sample_rate, levels.len() as int, k);
    assert(first * hop <= k * hop) by (nonlinear_arith)
        requires
            first <= k,
            hop >= 0,
    ;
    assert(tail_windows(sample_rate) >= 0) by (nonlinear_arith)
        requires
            tail_windows(sample_rate) == (sample_rate / 10) / hop,
            sample_rate >= 100,
            hop >= 1,
    ;
    assert(k * hop <= (last + 1 + tail_windows(sample_rate)) * hop) by (nonlinear_arith)
        requires
            k <= last,
            tail_windows(sample_rate) >= 0,
            hop >= 0,
    ;
}

/// Gating lets through the powers that were given and that are not below the threshold:
/// only those, and all of them.
pub proof fn law_gate(powers: Seq<Binary64>, gate: Binary64, power: Binary64)
    ensures
        gated(powers, gate).contains(power) <==> powers.contains(power) && power.spec_reaches(gate),
        gated(powers, gate).len() <= powers.len(),
{
    let open = |p: Binary64| p.spec_reaches(gate);
    broadcast use vstd::seq_lib::group_filter_ensures;

    if gated(powers, gate).contains(power) {
        powers.lemma_filter_contains_rev(open, power);
    }
    if powers.contains(power) && power.spec_reaches(gate) {
        let i = choose|i: int| 0 <= i < powers.len() && powers[i] == power;
        assert(open(powers[i]));
    }
}

/// A relative gate below the mean only ever narrows what the absolute gate let through.
pub proof fn law_gates_nest(
    powers: Seq<Binary64>,
    absolute: Binary64,
    gate: Binary64,
    power: Binary64,
)
    requires
        gated(gated(powers, absolute), gate).contains(power),
    ensures
        gated(powers, absolute).contains(power),
        power.spec_reaches(absolute),
        power.spec_reaches(gate),
{
    law_gate(gated(powers, absolute), gate, power);
    law_gate(powers, absolute, power);
}

/// A note whose measured part is silent comes back as it is, whatever gain there is.
pub proof fn law_silence_is_not_boosted<
    S,
    K,
    G: Fn(Binary64) -> K,
    C: Fn(S, K) -> S,
    O: Fn(S, K, usize, usize) -> S,
    I: Fn(S, usize, usize) -> S,
>(
    audio: Seq<S>,
    sample_rate: int,
    start: int,
    end: int,
    zero: S,
    gain: G,
    scale: C,
    fade_out: O,
    fade_in: I,
    out: Seq<S>,
)
    requires
        is_gained(
            audio,
            sample_rate,
            start,
            end,
            zero,
            Loudness::Silent,
            gain,
            scale,
            fade_out,
            fade_in,
            out,
        ),
    ensures
        out == audio,
{
}

/// Every value is `zero`.
pub open spec fn all_zero<T>(values: Seq<T>, zero: T) -> bool {
    forall|i: int| 0 <= i < values.len() ==> #[trigger] values[i] == zero
}

proof fn lemma_biquad_of_zeros<T, F: Fn(T, T, T, T, T) -> T>(
    step: F,
    input: Seq<T>,
    output: Seq<T>,
    zero: T,
    n: int,
)
    requires
        is_biquad(step, input, output, zero),
        all_zero(input, zero),
        forall|y: T| #[trigger] step.ensures((zero, zero, zero, zero, zero), y) ==> y == zero,
        0 <= n <= output.len(),
    ensures
        all_zero(output.take(n), zero),
    decreases n,
{
    if n > 0 {
        lemma_biquad_of_zeros(step, input, output, zero, n - 1);
        let i = n - 1;
        assert(is_biquad_output(step, input, output, zero, i));
        assert(i >= 1 ==> output.take(i)[i - 1] == zero);
        assert(i >= 2 ==> output.take(i)[i - 2] == zero);
        assert(output[i] == zero);
        assert forall|k: int| 0 <= k < n implies #[trigger] output.take(n)[k] == zero by {
            if k < i {
                assert(output.take(i)[k] == zero);
            }
        }
    }
}

/// A note of zeros comes back as it is, where zeros stay zeros when they are widened and
/// weighted and have a power below every threshold.
pub proof fn law_zeros_are_not_boosted<
    S,
    D,
    K,
    W: Fn(S) -> D,
    F: Fn(D, D, D, D, D) -> D,
    H: Fn(D, D, D, D, D) -> D,
    P: Fn(&[D]) -> Binary64,
    M: Fn(&[Binary64]) -> Binary64,
    R: Fn(Binary64) -> Binary64,
    G: Fn(Binary64) -> K,
    C: Fn(S, K) -> S,
    O: Fn(S, K, usize, usize) -> S,
    I: Fn(S, usize, usize) -> S,
>(
    audio: Seq<S>,
    sample_rate: int,
    min_block: int,
    start: int,
    end: int,
    zero: S,
    block: int,
    absolute: Binary64,
    zero_wide: D,
    widen: W,
    shelf: F,
    highpass: H,
    power: P,
    mean: M,
    relative: R,
    gain: G,
    scale: C,
    fade_out: O,
    fade_in: I,
    out: Seq<S>,
)
    requires
        0 <= start < end <= audio.len(),
        block > 0,
        min_block >= 0,
        is_normalized(
            audio,
            sample_rate,
            min_block,
            start,
            end,
            zero,
            block,
            absolute,
            zero_wide,
            widen,
            shelf,
            highpass,
            power,
            mean,
            relative,
            gain,
            scale,
            fade_out,
            fade_in,
            out,
        ),
        all_zero(audio, zero),
        forall|d: D| #[trigger] widen.ensures((zero,), d) ==> d == zero_wide,
        forall|y: D| #[trigger]
            shelf.ensures((zero_wide, zero_wide, zero_wide, zero_wide, zero_wide), y) ==> y
                == zero_wide,
        forall|y: D| #[trigger]
            highpass.ensures((zero_wide, zero_wide, zero_wide, zero_wide, zero_wide), y) ==> y
                == zero_wide,
        forall|samples: &[D], p: Binary64|
            all_zero(samples@, zero_wide) && #[trigger] power.ensures((samples,), p) ==> (Binary64 {
                bits: SILENT_POWER,
            }).spec_exceeds(p) && !p.spec_reaches(absolute),
    ensures
        out == audio,
{
    let part = crate::reflect::reflect_extended(audio.subrange(start, end), min_block);
    let loudness = choose|loudness: Loudness|
        {
            &&& #[trigger] is_part_loudness(
                part,
                block,
                absolute,
                zero_wide,
                widen,
                shelf,
                highpass,
                power,
                mean,
                relative,
                loudness,
            )
            &&& is_gained(
                audio,
                sample_rate,
                start,
                end,
                zero,
                loudness,
                gain,
                scale,
                fade_out,
                fade_in,
                out,
            )
        };
    assert(all_zero(part, zero)) by {
        let source = audio.subrange(start, end);
        assert forall|i: int| 0 <= i < part.len() implies #[trigger] part[i] == zero by {
            if i >= source.len() {
                let k = crate::reflect::reflected(i - source.len(), source.len() as int);
                lemma_reflected_inside(i - source.len(), source.len() as int);
                assert(source[k] == audio[start + k]);
            } else {
                assert(source[i] == audio[start + i]);
            }
        }
    }
    let (wide, weighted) = choose|wide: Seq<D>, weighted: Seq<D>|
        {
            &&& #[trigger] are_widened(part, widen, wide)
            &&& #[trigger] is_k_weighted(wide, zero_wide, shelf, highpass, weighted)
            &&& is_loudness(weighted, block, absolute, power, mean, relative, loudness)
        };
    assert(all_zero(wide, zero_wide)) by {
        assert forall|i: int| 0 <= i < wide.len() implies #[trigger] wide[i] == zero_wide by {
            assert(part[i] == zero);
            assert(widen.ensures((part[i],), wide[i]));
        }
    }
    let shelved = choose|shelved: Seq<D>| #[trigger]
        is_biquad(shelf, wide, shelved, zero_wide) && is_biquad(
            highpass,
            shelved,
            weighted,
            zero_wide,
        );
    lemma_biquad_of_zeros(shelf, wide, shelved, zero_wide, shelved.len() as int);
    assert(shelved.take(shelved.len() as int) =~= shelved);
    lemma_biquad_of_zeros(highpass, shelved, weighted, zero_wide, weighted.len() as int);
    assert(weighted.take(weighted.len() as int) =~= weighted);
    assert(all_zero(weighted, zero_wide));
    if 0 < weighted.len() < block {
        let whole = choose|whole: Binary64|
            {
                &&& #[trigger] crate::frames::measures(power, weighted, whole)
                &&& loudness == if (Binary64 { bits: SILENT_POWER }).spec_exceeds(whole) {
                    Loudness::Silent
                } else {
                    Loudness::Power(whole)
                }
            };
        assert(crate::frames::measures(power, weighted, whole));
    } else if weighted.len() >= block {
        let powers = choose|powers: Seq<Binary64>|
            {
                &&& #[trigger] crate::frames::measures_frames(
                    power,
                    weighted,
                    block,
                    block / 4,
                    powers,
                )
                &&& is_gated_loudness(powers, absolute, mean, relative, loudness)
            };
        if gated(powers, absolute).len() > 0 {
            let first = gated(powers, absolute)[0];
            law_gate(powers, absolute, first);
            let k = choose|k: int| 0 <= k < powers.len() && powers[k] == first;
            let samples = weighted.subrange(k * (block / 4), k * (block / 4) + block);
            assert(crate::frames::measures(power, samples, powers[k]));
            if block / 4 > 0 {
                crate::frames::lemma_frame_fits(weighted.len() as int, block, block / 4, k);
            } else {
                assert(k * (block / 4) == 0) by (nonlinear_arith)
                    requires
                        block / 4 == 0,
                ;
            }
            assert(all_zero(samples, zero_wide));
            assert(false);
        }
    }
    assert(loudness == Loudness::Silent);
    law_silence_is_not_boosted(
        audio,
        sample_rate,
        start,
        end,
        zero,
        gain,
        scale,
        fade_out,
        fade_in,
        out,
    );
}

proof fn lemma_reflected_inside(i: int, len: int)
    requires
        i >= 0,
        len > 0,
    ensures
        0 <= crate::reflect::reflected(i, len) < len,
{
    if len > 1 {
        lemma_mod_bound(i, 2 * (len - 1));
    }
}

/// Past the crossfade a rebuilt note is the note itself, and before its voiced part it is
/// silent.
pub proof fn law_rebuilt_outside<
    S,
    K,
    C: Fn(S, K) -> S,
    O: Fn(S, K, usize, usize) -> S,
    I: Fn(S, usize, usize) -> S,
>(
    audio: Seq<S>,
    start: int,
    end: int,
    sample_rate: int,
    gain: K,
    zero: S,
    scale: C,
    fade_out: O,
    fade_in: I,
    i: int,
    out: S,
)
    requires
        0 <= start <= end <= audio.len(),
        sample_rate >= 0,
        0 <= i < audio.len(),
        is_rebuilt_at(
            audio,
            start,
            end,
            fade_samples(end - start, sample_rate),
            gain,
            zero,
            scale,
            fade_out,
            fade_in,
            i,
            out,
        ),
    ensures
        i < start ==> out == zero,
        i >= end + fade_samples(end - start, sample_rate) ==> out == audio[i],
{
}

/// What a note becomes around its normalized part. Where the note changes at all, every
/// sample before the part is silent, and every sample that lies 200 ms or a quarter of the
/// part behind its end is as it was: whether the part touches one end of the note, both or
/// neither.
pub proof fn law_gained_outside<
    S,
    K,
    G: Fn(Binary64) -> K,
    C: Fn(S, K) -> S,
    O: Fn(S, K, usize, usize) -> S,
    I: Fn(S, usize, usize) -> S,
>(
    audio: Seq<S>,
    sample_rate: int,
    start: int,
    end: int,
    zero: S,
    loudness: Loudness,
    gain: G,
    scale: C,
    fade_out: O,
    fade_in: I,
    out: Seq<S>,
)
    requires
        0 <= start <= end <= audio.len(),
        sample_rate >= 0,
        is_gained(
            audio,
            sample_rate,
            start,
            end,
            zero,
            loudness,
            gain,
            scale,
            fade_out,
            fade_in,
            out,
        ),
    ensures
        out.len() == audio.len(),
        out != audio ==> forall|i: int| 0 <= i < start ==> #[trigger] out[i] == zero,
        forall|i: int|
            end <= i < audio.len() && (5 * (i - end) >= sample_rate || 4 * (i - end) >= end - start)
                ==> #[trigger] out[i] == audio[i],
{
    if out != audio {
        let found = choose|found: Option<K>|
            {
                &&& #[trigger] is_gain(loudness, gain, found)
                &&& found matches Some(k) && out.len() == audio.len() && forall|i: int|
                    0 <= i < out.len() ==> if start == 0 && end == audio.len() {
                        scale.ensures((audio[i], k), #[trigger] out[i])
                    } else {
                        is_rebuilt_at(
                            audio,
                            start,
                            end,
                            fade_samples(end - start, sample_rate),
                            k,
                            zero,
                            scale,
                            fade_out,
                            fade_in,
                            i,
                            out[i],
                        )
                    }
            };
        if !(start == 0 && end == audio.len()) {
            assert forall|i: int| 0 <= i < start implies #[trigger] out[i] == zero by {}
            assert forall|i: int|
                end <= i < audio.len() && (5 * (i - end) >= sample_rate || 4 * (i - end) >= end
                    - start) implies #[trigger] out[i] == audio[i] by {}
        }
    }
}

/// A note changes where a finite loudness was measured, by one gain for all of its part: a
/// part that is the whole note is scaled throughout. Any other part is scaled up to where
/// it fades out, and what fades out, or in behind it, lies within the longest stretch that
/// takes up neither more than 200 ms nor more than a quarter of the part.
pub proof fn law_gained_inside<
    S,
    K,
    G: Fn(Binary64) -> K,
    C: Fn(S, K) -> S,
    O: Fn(S, K, usize, usize) -> S,
    I: Fn(S, usize, usize) -> S,
>(
    audio: Seq<S>,
    sample_rate: int,
    start: int,
    end: int,
    zero: S,
    power: Binary64,
    gain: G,
    scale: C,
    fade_out: O,
    fade_in: I,
    out: Seq<S>,
    fade: int,
)
    requires
        0 <= start <= end <= audio.len(),
        sample_rate >= 0,
        power.units() != 0,
        power.bits != INFINITY_64,
        is_gained(
            audio,
            sample_rate,
            start,
            end,
            zero,
            Loudness::Power(power),
            gain,
            scale,
            fade_out,
            fade_in,
            out,
        ),
        5 * fade <= sample_rate && 4 * fade <= end - start,
        5 * (fade + 1) > sample_rate || 4 * (fade + 1) > end - start,
    ensures
        exists|k: K|
            {
                &&& #[trigger] gain.ensures((power,), k)
                &&& start == 0 && end == audio.len() ==> forall|i: int|
                    0 <= i < audio.len() ==> scale.ensures((audio[i], k), #[trigger] out[i])
                &&& forall|i: int|
                    start <= i < end - fade ==> scale.ensures((audio[i], k), #[trigger] out[i])
                &&& start > 0 || end < audio.len() ==> forall|i: int|
                    end - fade <= i < end ==> fade_out.ensures(
                        (audio[i], k, (fade - (end - i)) as usize, fade as usize),
                        #[trigger] out[i],
                    )
                &&& forall|i: int, cross: int|
                    end <= i < end + cross && cross <= fade && cross <= audio.len() - end && (cross
                        == fade || cross == audio.len() - end) ==> #[trigger] fade_in.ensures(
                        (audio[i], (i - end) as usize, cross as usize),
                        out[i],
                    )
            },
{
    crate::ieee::law_zero_64(power);
    let found = choose|found: Option<K>|
        {
            &&& #[trigger] is_gain(Loudness::Power(power), gain, found)
            &&& match found {
                None => out == audio,
                Some(k) => {
                    &&& out.len() == audio.len()
                    &&& forall|i: int|
                        0 <= i < out.len() ==> if start == 0 && end == audio.len() {
                            scale.ensures((audio[i], k), #[trigger] out[i])
                        } else {
                            is_rebuilt_at(
                                audio,
                                start,
                                end,
                                fade_samples(end - start, sample_rate),
                                k,
                                zero,
                                scale,
                                fade_out,
                                fade_in,
                                i,
                                out[i],
                            )
                        }
                },
            }
        };
    assert(found is Some);
    let k = found->0;
    assert(gain.ensures((power,), k));
    assert(fade_samples(end - start, sample_rate) == fade);
}

/// Normalizing a note silences what lies before its measured part, and leaves what lies
/// 200 ms or a quarter of the part behind its end as it was, unless it leaves all of the
/// note as it was.
pub proof fn law_normalized_outside<
    S,
    D,
    K,
    W: Fn(S) -> D,
    F: Fn(D, D, D, D, D) -> D,
    H: Fn(D, D, D, D, D) -> D,
    P: Fn(&[D]) -> Binary64,
    M: Fn(&[Binary64]) -> Binary64,
    R: Fn(Binary64) -> Binary64,
    G: Fn(Binary64) -> K,
    C: Fn(S, K) -> S,
    O: Fn(S, K, usize, usize) -> S,
    I: Fn(S, usize, usize) -> S,
>(
    audio: Seq<S>,
    sample_rate: int,
    min_block: int,
    start: int,
    end: int,
    zero: S,
    block: int,
    absolute: Binary64,
    zero_wide: D,
    widen: W,
    shelf: F,
    highpass: H,
    power: P,
    mean: M,
    relative: R,
    gain: G,
    scale: C,
    fade_out: O,
    fade_in: I,
    out: Seq<S>,
)
    requires
        0 <= start <= end <= audio.len(),
        sample_rate >= 0,
        is_normalized(
            audio,
            sample_rate,
            min_block,
            start,
            end,
            zero,
            block,
            absolute,
            zero_wide,
            widen,
            shelf,
            highpass,
            power,
            mean,
            relative,
            gain,
            scale,
            fade_out,
            fade_in,
            out,
        ),
    ensures
        out.len() == audio.len(),
        out != audio ==> forall|i: int| 0 <= i < start ==> #[trigger] out[i] == zero,
        forall|i: int|
            end <= i < audio.len() && (5 * (i - end) >= sample_rate || 4 * (i - end) >= end - start)
                ==> #[trigger] out[i] == audio[i],
{
    let part = crate::reflect::reflect_extended(audio.subrange(start, end), min_block);
    let loudness = choose|loudness: Loudness|
        {
            &&& #[trigger] is_part_loudness(
                part,
                block,
                absolute,
                zero_wide,
                widen,
                shelf,
                highpass,
                power,
                mean,
                relative,
                loudness,
            )
            &&& is_gained(
                audio,
                sample_rate,
                start,
                end,
                zero,
                loudness,
                gain,
                scale,
                fade_out,
                fade_in,
                out,
            )
        };
    law_gained_outside(
        audio,
        sample_rate,
        start,
        end,
        zero,
        loudness,
        gain,
        scale,
        fade_out,
        fade_in,
        out,
    );
}

/// A gain is found where the loudness is finite, and only there: not for silence, nor for
/// a power of zero of either sign, nor for an infinite one.
pub proof fn law_gain_found<K, G: Fn(Binary64) -> K>(loudness: Loudness, gain: G, found: Option<K>)
    requires
        is_gain(loudness, gain, found),
    ensures
        found is None <==> match loudness {
            Loudness::Silent => true,
            Loudness::Power(power) => power.units() == 0 || power.bits == INFINITY_64,
        },
        found matches Some(k) ==> loudness matches Loudness::Power(power) && gain.ensures(
            (power,),
            k,
        ),
{
    if let Loudness::Power(power) = loudness {
        crate::ieee::law_zero_64(power);
    }
}

/// Two lists of powers that agree in those not below the absolute threshold, in order,
/// have the same gated loudness: quieter blocks count neither in the mean that the relative
/// threshold hangs on nor in the result.
pub proof fn law_quiet_blocks_do_not_matter<
    M: Fn(&[Binary64]) -> Binary64,
    G: Fn(Binary64) -> Binary64,
>(
    a: Seq<Binary64>,
    b: Seq<Binary64>,
    absolute: Binary64,
    mean: M,
    relative: G,
    r: Loudness,
)
    requires
        !absolute.spec_is_nan(),
        a.filter(|p: Binary64| !p.spec_is_nan() && p.units() >= absolute.units()) == b.filter(
            |p: Binary64| !p.spec_is_nan() && p.units() >= absolute.units(),
        ),
    ensures
        is_gated_loudness(a, absolute, mean, relative, r) <==> is_gated_loudness(
            b,
            absolute,
            mean,
            relative,
            r,
        ),
{
    lemma_gated_by_value(a, absolute);
    lemma_gated_by_value(b, absolute);
}

proof fn lemma_gated_by_value(powers: Seq<Binary64>, gate: Binary64)
    requires
        !gate.spec_is_nan(),
    ensures
        gated(powers, gate) == powers.filter(
            |p: Binary64| !p.spec_is_nan() && p.units() >= gate.units(),
        ),
{
    let open = |p: Binary64| p.spec_reaches(gate);
    let loud = |p: Binary64| !p.spec_is_nan() && p.units() >= gate.units();
    assert forall|p: Binary64| #[trigger] open(p) == loud(p) by {
        crate::ieee::law_reaches_64(p, gate);
    }
    assert(open =~= loud);
}

/// Blocks below the absolute threshold change nothing, wherever they stand among the
/// others.
pub proof fn law_quiet_blocks_added<
    M: Fn(&[Binary64]) -> Binary64,
    G: Fn(Binary64) -> Binary64,
>(
    before: Seq<Binary64>,
    quiet: Seq<Binary64>,
    after: Seq<Binary64>,
    absolute: Binary64,
    mean: M,
    relative: G,
    r: Loudness,
)
    requires
        !absolute.spec_is_nan(),
        forall|i: int|
            0 <= i < quiet.len() ==> (#[trigger] quiet[i]).spec_is_nan() || quiet[i].units()
                < absolute.units(),
    ensures
        is_gated_loudness(before + quiet + after, absolute, mean, relative, r)
            <==> is_gated_loudness(before + after, absolute, mean, relative, r),
{
    let loud = |p: Binary64| !p.spec_is_nan() && p.units() >= absolute.units();
    Seq::filter_distributes_over_add(before + quiet, after, loud);
    Seq::filter_distributes_over_add(before, quiet, loud);
    Seq::filter_distributes_over_add(before, after, loud);
    if quiet.filter(loud).len() > 0 {
        let first = quiet.filter(loud)[0];
        quiet.lemma_filter_contains_rev(loud, first);
        broadcast use vstd::seq_lib::group_filter_ensures;

        assert(loud(quiet.filter(loud)[0]));
        let i = choose|i: int| 0 <= i < quiet.len() && quiet[i] == first;
        assert(false);
    }
    assert(before.filter(loud) + quiet.filter(loud) + after.filter(loud) =~= before.filter(loud)
        + after.filter(loud));
    law_quiet_blocks_do_not_matter(
        before + quiet + after,
        before + after,
        absolute,
        mean,
        relative,
        r,
    );
}

/// Where the mean and the threshold under it depend on their arguments alone, lists of
/// powers that agree in those not below the absolute threshold have one gated loudness.
pub proof fn law_gated_loudness_determined<
    M: Fn(&[Binary64]) -> Binary64,
    G: Fn(Binary64) -> Binary64,
>(
    a: Seq<Binary64>,
    b: Seq<Binary64>,
    absolute: Binary64,
    mean: M,
    relative: G,
    loudness_a: Loudness,
    loudness_b: Loudness,
)
    requires
        !absolute.spec_is_nan(),
        a.filter(|p: Binary64| !p.spec_is_nan() && p.units() >= absolute.units()) == b.filter(
            |p: Binary64| !p.spec_is_nan() && p.units() >= absolute.units(),
        ),
        forall|part: &[Binary64], other: &[Binary64], x: Binary64, y: Binary64|
            part@ == other@ && #[trigger] mean.ensures((part,), x) && #[trigger] mean.ensures(
                (other,),
                y,
            ) ==> x == y,
        forall|level: Binary64, x: Binary64, y: Binary64| #[trigger]
            relative.ensures((level,), x) && #[trigger] relative.ensures((level,), y) ==> x == y,
        is_gated_loudness(a, absolute, mean, relative, loudness_a),
        is_gated_loudness(b, absolute, mean, relative, loudness_b),
    ensures
        loudness_a == loudness_b,
{
    lemma_gated_by_value(a, absolute);
    lemma_gated_by_value(b, absolute);
}

/// The gated loudness is the mean of the powers that are below neither the absolute
/// threshold nor the relative one, which hangs on the mean of those not below the absolute
/// one; it is silent where no power is left.
pub proof fn law_gated_loudness_counts<
    M: Fn(&[Binary64]) -> Binary64,
    G: Fn(Binary64) -> Binary64,
>(
    powers: Seq<Binary64>,
    absolute: Binary64,
    mean: M,
    relative: G,
    r: Loudness,
    level: Binary64,
    gate: Binary64,
    i: int,
)
    requires
        !absolute.spec_is_nan(),
        !gate.spec_is_nan(),
        is_gated_loudness(powers, absolute, mean, relative, r),
        forall|part: &[Binary64], x: Binary64|
            part@ == powers.filter(
                |p: Binary64| !p.spec_is_nan() && p.units() >= absolute.units(),
            ) && #[trigger] mean.ensures((part,), x) ==> x == level,
        forall|x: Binary64| #[trigger] relative.ensures((level,), x) ==> x == gate,
        0 <= i < powers.len(),
        !powers[i].spec_is_nan(),
        powers[i].units() >= absolute.units(),
    ensures
        powers[i].units() >= gate.units() ==> r matches Loudness::Power(_),
        r matches Loudness::Power(power) ==> crate::frames::measures(
            mean,
            powers.filter(
                |p: Binary64|
                    !p.spec_is_nan() && p.units() >= absolute.units() && p.units() >= gate.units(),
            ),
            power,
        ),
{
    let loud = |p: Binary64| !p.spec_is_nan() && p.units() >= absolute.units();
    let near = |p: Binary64| !p.spec_is_nan() && p.units() >= gate.units();
    let both = |p: Binary64|
        !p.spec_is_nan() && p.units() >= absolute.units() && p.units() >= gate.units();
    lemma_gated_by_value(powers, absolute);
    let audible = gated(powers, absolute);
    lemma_gated_by_value(audible, gate);
    broadcast use vstd::seq_lib::group_filter_ensures;

    assert(loud(powers[i]));
    assert(audible.contains(powers[i]));
    lemma_filter_twice(powers, loud, near);
    assert((|p: Binary64| loud(p) && near(p)) =~= both);
    if powers[i].units() >= gate.units() {
        assert(both(powers[i]));
        assert(powers.filter(both).contains(powers[i]));
    }
}

proof fn lemma_filter_twice<T>(values: Seq<T>, a: spec_fn(T) -> bool, b: spec_fn(T) -> bool)
    ensures
        values.filter(a).filter(b) == values.filter(|v: T| a(v) && b(v)),
    decreases values.len(),
{
    let c = |v: T| a(v) && b(v);
    if values.len() > 0 {
        let init = values.drop_last();
        let last = values.last();
        lemma_filter_twice(init, a, b);
        assert(values =~= init.push(last));
        init.lemma_filter_push(last, a);
        init.lemma_filter_push(last, c);
        if a(last) {
            init.filter(a).lemma_filter_push(last, b);
        }
    } else {
        assert(values.filter(a).filter(b) =~= values.filter(c)) by {
            reveal(Seq::filter);
        }
    }
}

/// A filtered sample depends on the input up to it and on nothing behind it: inputs that
/// agree in their first samples give outputs that agree in them, where the filter depends
/// on its arguments alone.
pub proof fn law_biquad_causal<T, F: Fn(T, T, T, T, T) -> T>(
    step: F,
    a: Seq<T>,
    b: Seq<T>,
    out_a: Seq<T>,
    out_b: Seq<T>,
    zero: T,
    n: int,
)
    requires
        is_biquad(step, a, out_a, zero),
        is_biquad(step, b, out_b, zero),
        0 <= n <= a.len(),
        n <= b.len(),
        a.take(n) == b.take(n),
        forall|x0: T, x1: T, x2: T, y1: T, y2: T, p: T, q: T| #[trigger]
            step.ensures((x0, x1, x2, y1, y2), p) && #[trigger] step.ensures(
                (x0, x1, x2, y1, y2),
                q,
            ) ==> p == q,
    ensures
        out_a.len() == a.len(),
        out_a.take(n) == out_b.take(n),
    decreases n,
{
    if n > 0 {
        assert(a.take(n - 1) =~= a.take(n).take(n - 1));
        assert(b.take(n - 1) =~= b.take(n).take(n - 1));
        law_biquad_causal(step, a, b, out_a, out_b, zero, n - 1);
        let i = n - 1;
        assert(forall|k: int| 0 <= k < n ==> a[k] == a.take(n)[k] && b[k] == b.take(n)[k]);
        assert(forall|k: int|
            0 <= k < i ==> out_a[k] == out_a.take(i)[k] && out_b[k] == out_b.take(i)[k]);
        assert(is_biquad_output(step, a, out_a, zero, i));
        assert(is_biquad_output(step, b, out_b, zero, i));
        assert(out_a[i] == out_b[i]);
        assert(out_a.take(n) =~= out_a.take(i).push(out_a[i]));
        assert(out_b.take(n) =~= out_b.take(i).push(out_b[i]));
    } else {
        assert(out_a.take(0) =~= out_b.take(0));
    }
}

/// The filter remembers the two inputs and the two outputs before a sample, nearest first,
/// and starts from silence.
pub proof fn law_biquad_memory<T, F: Fn(T, T, T, T, T) -> T>(
    step: F,
    input: Seq<T>,
    output: Seq<T>,
    zero: T,
    i: int,
)
    requires
        is_biquad(step, input, output, zero),
        0 <= i < input.len(),
    ensures
        i == 0 ==> step.ensures((input[0], zero, zero, zero, zero), output[0]),
        i == 1 ==> step.ensures((input[1], input[0], zero, output[0], zero), output[1]),
        i >= 2 ==> step.ensures(
            (input[i], input[i - 1], input[i - 2], output[i - 1], output[i - 2]),
            output[i],
        ),
{
    assert(is_biquad_output(step, input, output, zero, i));
}

/// `y` is what the filter answers to something.
pub open spec fn is_some_output<T, F: Fn(T, T, T, T, T) -> T>(step: F, y: T) -> bool {
    exists|x0: T, x1: T, x2: T, y1: T, y2: T| #[trigger] step.ensures((x0, x1, x2, y1, y2), y)
}

/// The high-pass has the last word on every sample of a weighted signal, and the shelf the
/// first: a shelf that lets everything through leaves the signal itself to the high-pass,
/// and one that answers the same to everything leaves nothing else to it.
pub proof fn law_shelf_comes_first<T, F: Fn(T, T, T, T, T) -> T, H: Fn(T, T, T, T, T) -> T>(
    audio: Seq<T>,
    zero: T,
    shelf: F,
    highpass: H,
    weighted: Seq<T>,
    constant: T,
)
    requires
        is_k_weighted(audio, zero, shelf, highpass, weighted),
    ensures
        weighted.len() == audio.len(),
        forall|i: int|
            0 <= i < weighted.len() ==> is_some_output(highpass, #[trigger] weighted[i]),
        (forall|x0: T, x1: T, x2: T, y1: T, y2: T, y: T| #[trigger]
            shelf.ensures((x0, x1, x2, y1, y2), y) ==> y == x0) ==> is_biquad(
            highpass,
            audio,
            weighted,
            zero,
        ),
        (forall|x0: T, x1: T, x2: T, y1: T, y2: T, y: T| #[trigger]
            shelf.ensures((x0, x1, x2, y1, y2), y) ==> y == constant) ==> is_biquad(
            highpass,
            Seq::new(audio.len(), |i: int| constant),
            weighted,
            zero,
        ),
{
    let shelved = choose|shelved: Seq<T>| #[trigger]
        is_biquad(shelf, audio, shelved, zero) && is_biquad(highpass, shelved, weighted, zero);
    assert forall|i: int| 0 <= i < weighted.len() implies is_some_output(
        highpass,
        #[trigger] weighted[i],
    ) by {
        assert(is_biquad_output(highpass, shelved, weighted, zero, i));
    }
    if forall|x0: T, x1: T, x2: T, y1: T, y2: T, y: T| #[trigger]
        shelf.ensures((x0, x1, x2, y1, y2), y) ==> y == x0 {
        assert forall|i: int| 0 <= i < audio.len() implies shelved[i] == audio[i] by {
            assert(is_biquad_output(shelf, audio, shelved, zero, i));
        }
        assert(shelved =~= audio);
    }
    if forall|x0: T, x1: T, x2: T, y1: T, y2: T, y: T| #[trigger]
        shelf.ensures((x0, x1, x2, y1, y2), y) ==> y == constant {
        assert forall|i: int| 0 <= i < audio.len() implies shelved[i] == constant by {
            assert(is_biquad_output(shelf, audio, shelved, zero, i));
        }
        assert(shelved =~= Seq::new(audio.len(), |i: int| constant));
    }
}

/// A signal that is at least a block long is measured in blocks that advance by a quarter
/// of a block and cover it up to a rest too short for a further block.
pub proof fn law_blocks_cover<
    S,
    P: Fn(&[S]) -> Binary64,
    M: Fn(&[Binary64]) -> Binary64,
    G: Fn(Binary64) -> Binary64,
>(
    weighted: Seq<S>,
    block: int,
    absolute: Binary64,
    power: P,
    mean: M,
    relative: G,
    r: Loudness,
    step: int,
)
    requires
        4 <= block <= weighted.len(),
        4 * step <= block < 4 * step + 4,
        is_loudness(weighted, block, absolute, power, mean, relative, r),
    ensures
        exists|powers: Seq<Binary64>|
            {
                &&& #[trigger] is_gated_loudness(powers, absolute, mean, relative, r)
                &&& powers.len() > 0
                &&& (powers.len() - 1) * step + block <= weighted.len() < powers.len() * step
                    + block
                &&& forall|k: int|
                    0 <= k < powers.len() ==> crate::frames::measures(
                        power,
                        weighted.subrange(k * step, k * step + block),
                        #[trigger] powers[k],
                    )
            },
{
    assert(step == block / 4);
    let powers = choose|powers: Seq<Binary64>|
        {
            &&& #[trigger] crate::frames::measures_frames(power, weighted, block, step, powers)
            &&& is_gated_loudness(powers, absolute, mean, relative, r)
        };
    let last = (weighted.len() - block) / step;
    lemma_fundamental_div_mod(weighted.len() - block, step);
    assert(last >= 0) by (nonlinear_arith)
        requires
            last == (weighted.len() - block) / step,
            weighted.len() >= block,
            step >= 1,
    ;
    assert(powers.len() == last + 1);
    assert((powers.len() - 1) * step == step * last) by (nonlinear_arith)
        requires
            powers.len() == last + 1,
    ;
    assert(powers.len() * step == step * last + step) by (nonlinear_arith)
        requires
            powers.len() == last + 1,
    ;
    assert(is_gated_loudness(powers, absolute, mean, relative, r));
}

/// A signal without samples is silent. One shorter than a block is measured whole, and is
/// silent exactly where its power is less than the float nearest to 1e-20: `least`, which is
/// no further from it than half the distance between floats there.
pub proof fn law_short_signal_loudness<
    S,
    P: Fn(&[S]) -> Binary64,
    M: Fn(&[Binary64]) -> Binary64,
    G: Fn(Binary64) -> Binary64,
>(
    weighted: Seq<S>,
    block: int,
    absolute: Binary64,
    power: P,
    mean: M,
    relative: G,
    r: Loudness,
    least: Binary64,
)
    requires
        weighted.len() < block || weighted.len() == 0,
        is_loudness(weighted, block, absolute, power, mean, relative, r),
        least.units() > 0,
        -(100_000_000_000_000_000_000 * pow2(955)) <= 2 * (100_000_000_000_000_000_000
            * least.units() - pow2(1074)) <= 100_000_000_000_000_000_000 * pow2(955),
    ensures
        weighted.len() == 0 ==> r == Loudness::Silent,
        weighted.len() > 0 ==> exists|whole: Binary64|
            {
                &&& #[trigger] crate::frames::measures(power, weighted, whole)
                &&& r == if !whole.spec_is_nan() && whole.units() < least.units() {
                    Loudness::Silent
                } else {
                    Loudness::Power(whole)
                }
            },
{
    let silent = Binary64 { bits: SILENT_POWER };
    let n: nat = 100_000_000_000_000_000_000;
    let u = pow2(955);
    let m: nat = 0x17_9ca1_0c92_4223;
    lemma2_to64_rest();
    lemma_pow2_adds(955, 119);
    lemma_pow2_adds(60, 59);
    lemma_pow2_pos(955);
    assert(pow2(1074) == u * 664613997892457936451903530140172288);
    assert(n * (m * u) == (n * m) * u) by (nonlinear_arith);
    assert(-(n * u) < 2 * (n * (m * u) - pow2(1074)) < n * u);
    crate::ieee::lemma_nearest_64(silent, least, 956, m, n);
    if weighted.len() > 0 {
        let whole = choose|whole: Binary64|
            {
                &&& #[trigger] crate::frames::measures(power, weighted, whole)
                &&& r == if silent.spec_exceeds(whole) {
                    Loudness::Silent
                } else {
                    Loudness::Power(whole)
                }
            };
        assert(crate::frames::measures(power, weighted, whole));
        crate::ieee::law_exceeds_64(silent, whole);
    }
}

/// A strength is weak exactly where it is less than the float nearest to 0.01: `hundredth`,
/// which is no further from it than half the distance between floats there. What is no
/// number is not weak.
pub proof fn law_weak_strength(strength: Binary64, hundredth: Binary64)
    requires
        hundredth.units() > 0,
        -(100 * pow2(1015)) <= 2 * (100 * hundredth.units() - pow2(1074)) <= 100 * pow2(1015),
    ensures
        is_weak_strength(strength) <==> !strength.spec_is_nan() && strength.units()
            < hundredth.units(),
{
    crate::ieee::lemma_hundredth_64(hundredth);
    crate::ieee::law_exceeds_64(Binary64 { bits: HUNDREDTH_64 }, strength);
}

/// The part that is measured starts at the first voiced window and runs on to 100 ms worth
/// of windows past the last one, as far as the note goes; nothing voiced lies outside it.
/// A note without a voiced window is measured whole.
pub proof fn law_voiced_range_reach(
    levels: Seq<Binary64>,
    len: int,
    sample_rate: int,
    threshold: Binary64,
    start: int,
    end: int,
    window: int,
    hop: int,
    tail: int,
)
    requires
        sample_rate >= 100,
        !threshold.spec_is_nan(),
        is_voiced_range(levels, len, sample_rate, threshold, start, end),
        50 * window <= sample_rate < 50 * (window + 1),
        100 * hop <= sample_rate < 100 * (hop + 1),
        10 * (tail * hop) <= sample_rate < 10 * ((tail + 1) * hop),
    ensures
        (forall|k: int|
            0 <= k < levels.len() ==> (#[trigger] levels[k]).spec_is_nan() || levels[k].units()
                < threshold.units()) ==> start == 0 && end == len,
        forall|k: int|
            0 <= k < levels.len() && !(#[trigger] levels[k]).spec_is_nan() && levels[k].units()
                >= threshold.units() ==> start <= k * hop && (end == len || (k + 1 + tail) * hop
                + window <= end < len),
        !(start == 0 && end == len) ==> exists|first: int, last: int|
            {
                &&& 0 <= first <= last < levels.len()
                &&& !(#[trigger] levels[first]).spec_is_nan() && levels[first].units()
                    >= threshold.units() && start == first * hop
                &&& !(#[trigger] levels[last]).spec_is_nan() && levels[last].units()
                    >= threshold.units() && (end == len || end == (last + 1 + tail) * hop + window)
            },
{
    assert(window == level_window(sample_rate) && hop == level_hop(sample_rate));
    assert(tail == tail_windows(sample_rate)) by {
        let whole = sample_rate / 10;
        assert(tail * hop <= whole < (tail + 1) * hop);
        assert((tail + 1) * hop == tail * hop + hop) by (nonlinear_arith);
        lemma_fundamental_div_mod_converse(whole, hop, tail, whole - tail * hop);
    }
    assert forall|k: int| 0 <= k < levels.len() implies (
    #[trigger] levels[k]).spec_reaches(threshold) == (!levels[k].spec_is_nan()
        && levels[k].units() >= threshold.units()) by {
        crate::ieee::law_reaches_64(levels[k], threshold);
    }
    if has_voice(levels, threshold) {
        let (first, last) = choose|first: int, last: int|
            {
                let reach = (last + 1 + tail) * hop + window;
                &&& #[trigger] is_first_voiced(levels, threshold, first)
                &&& #[trigger] is_last_voiced(levels, threshold, last)
                &&& start == first * hop
                &&& end == if reach <= len {
                    reach
                } else {
                    len
                }
            };
        assert forall|k: int|
            0 <= k < levels.len() && !(#[trigger] levels[k]).spec_is_nan() && levels[k].units()
                >= threshold.units() implies start <= k * hop && (end == len || (k + 1 + tail) * hop
            + window <= end < len) by {
            assert(levels[k].spec_reaches(threshold));
            assert(first <= k <= last);
            assert(first * hop <= k * hop) by (nonlinear_arith)
                requires
                    first <= k,
                    hop >= 1,
            ;
            assert((k + 1 + tail) * hop <= (last + 1 + tail) * hop) by (nonlinear_arith)
                requires
                    k <= last,
                    hop >= 1,
            ;
        }
        assert(levels[first].spec_reaches(threshold) && levels[last].spec_reaches(threshold));
        assert(first <= last);
    }
}

/// A capped gain is the smaller of the gain and the cap where it boosts; a gain that boosts
/// nothing, or compares with nothing, stays as it is.
pub proof fn law_capped(gain_db: Binary64, max_boost_db: Binary64)
    ensures
        gain_db.spec_is_nan() || max_boost_db.spec_is_nan() || gain_db.units() <= 0 ==> capped(
            gain_db,
            max_boost_db,
        ) == gain_db,
        !gain_db.spec_is_nan() && !max_boost_db.spec_is_nan() && gain_db.units() > 0 ==> {
            &&& capped(gain_db, max_boost_db).units() <= gain_db.units()
            &&& capped(gain_db, max_boost_db).units() <= max_boost_db.units()
            &&& capped(gain_db, max_boost_db) == gain_db || capped(gain_db, max_boost_db)
                == max_boost_db
        },
        gain_db.units() <= max_boost_db.units() ==> capped(gain_db, max_boost_db) == gain_db,
{
    let zero = Binary64 { bits: 0 };
    crate::ieee::law_zero_64(zero);
    crate::ieee::law_exceeds_64(gain_db, zero);
    crate::ieee::law_exceeds_64(gain_db, max_boost_db);
}

/// Where silence is not trimmed the whole note is measured, and so is a note of less than
/// 20 ms.
pub proof fn law_untrimmed_is_whole<S, L: Fn(&[S]) -> Binary64>(
    audio: Seq<S>,
    sample_rate: int,
    trim_silence: bool,
    threshold: Binary64,
    level: L,
    start: int,
    end: int,
)
    requires
        is_measured_range(audio, sample_rate, trim_silence, threshold, level, start, end),
        !trim_silence || 50 * (audio.len() + 1) <= sample_rate,
    ensures
        start == 0,
        end == audio.len(),
{
}

/// The part itself is measured, and nothing outside it: where it is shorter than asked for,
/// it runs through itself from its start once more, then back again, and so on.
pub proof fn law_part_is_measured<
    S,
    D,
    K,
    W: Fn(S) -> D,
    F: Fn(D, D, D, D, D) -> D,
    H: Fn(D, D, D, D, D) -> D,
    P: Fn(&[D]) -> Binary64,
    M: Fn(&[Binary64]) -> Binary64,
    R: Fn(Binary64) -> Binary64,
    G: Fn(Binary64) -> K,
    C: Fn(S, K) -> S,
    O: Fn(S, K, usize, usize) -> S,
    I: Fn(S, usize, usize) -> S,
>(
    audio: Seq<S>,
    sample_rate: int,
    min_block: int,
    start: int,
    end: int,
    zero: S,
    block: int,
    absolute: Binary64,
    zero_wide: D,
    widen: W,
    shelf: F,
    highpass: H,
    power: P,
    mean: M,
    relative: R,
    gain: G,
    scale: C,
    fade_out: O,
    fade_in: I,
    out: Seq<S>,
)
    requires
        0 <= start < end <= audio.len(),
        is_normalized(
            audio,
            sample_rate,
            min_block,
            start,
            end,
            zero,
            block,
            absolute,
            zero_wide,
            widen,
            shelf,
            highpass,
            power,
            mean,
            relative,
            gain,
            scale,
            fade_out,
            fade_in,
            out,
        ),
    ensures
        exists|wide: Seq<D>, weighted: Seq<D>, loudness: Loudness|
            {
                &&& wide.len() == if min_block <= end - start {
                    end - start
                } else {
                    min_block
                }
                &&& forall|i: int|
                    start <= i < end ==> widen.ensures((#[trigger] audio[i],), wide[i - start])
                &&& forall|i: int|
                    start <= i < end && end - start + (i - start) < min_block ==> widen.ensures(
                        (#[trigger] audio[i],),
                        wide[end - start + (i - start)],
                    )
                &&& forall|i: int|
                    start <= i < end && 2 * (end - start) - 1 + (end - 1 - i) < min_block
                        ==> widen.ensures(
                        (#[trigger] audio[i],),
                        wide[2 * (end - start) - 1 + (end - 1 - i)],
                    )
                &&& #[trigger] is_k_weighted(wide, zero_wide, shelf, highpass, weighted)
                &&& #[trigger] is_loudness(
                    weighted,
                    block,
                    absolute,
                    power,
                    mean,
                    relative,
                    loudness,
                )
                &&& is_gained(
                    audio,
                    sample_rate,
                    start,
                    end,
                    zero,
                    loudness,
                    gain,
                    scale,
                    fade_out,
                    fade_in,
                    out,
                )
            },
{
    let part = crate::reflect::reflect_extended(audio.subrange(start, end), min_block);
    let source = audio.subrange(start, end);
    let n = end - start;
    let loudness = choose|loudness: Loudness|
        {
            &&& #[trigger] is_part_loudness(
                part,
                block,
                absolute,
                zero_wide,
                widen,
                shelf,
                highpass,
                power,
                mean,
                relative,
                loudness,
            )
            &&& is_gained(
                audio,
                sample_rate,
                start,
                end,
                zero,
                loudness,
                gain,
                scale,
                fade_out,
                fade_in,
                out,
            )
        };
    let (wide, weighted) = choose|wide: Seq<D>, weighted: Seq<D>|
        {
            &&& #[trigger] are_widened(part, widen, wide)
            &&& #[trigger] is_k_weighted(wide, zero_wide, shelf, highpass, weighted)
            &&& is_loudness(weighted, block, absolute, power, mean, relative, loudness)
        };
    assert(part.len() == if min_block <= n {
        n
    } else {
        min_block
    }) by {
        crate::reflect::law_extended_runs_back_and_forth(source, min_block, 0);
    }
    assert forall|i: int| start <= i < end implies {
        &&& widen.ensures((#[trigger] audio[i],), wide[i - start])
        &&& n + (i - start) < min_block ==> widen.ensures((audio[i],), wide[n + (i - start)])
        &&& 2 * n - 1 + (end - 1 - i) < min_block ==> widen.ensures(
            (audio[i],),
            wide[2 * n - 1 + (end - 1 - i)],
        )
    } by {
        assert(source[i - start] == audio[i]);
        crate::reflect::law_extended_runs_back_and_forth(source, min_block, i - start);
        crate::reflect::law_extended_runs_back_and_forth(source, min_block, end - 1 - i);
        assert(widen.ensures((part[i - start],), wide[i - start]));
        if n + (i - start) < min_block {
            assert(widen.ensures((part[n + (i - start)],), wide[n + (i - start)]));
        }
        if 2 * n - 1 + (end - 1 - i) < min_block {
            let k = 2 * n - 1 + (end - 1 - i);
            assert(n + (n - 1) + (end - 1 - i) == k);
            assert(widen.ensures((part[k],), wide[k]));
        }
    }
    assert(is_k_weighted(wide, zero_wide, shelf, highpass, weighted) && is_loudness(
        weighted,
        block,
        absolute,
        power,
        mean,
        relative,
        loudness,
    ));
}

/// Where no power is as loud as the absolute threshold, nothing is heard; and where none of
/// those that are is as loud as the relative one, neither.
pub proof fn law_gated_loudness_silent<
    M: Fn(&[Binary64]) -> Binary64,
    G: Fn(Binary64) -> Binary64,
>(powers: Seq<Binary64>, absolute: Binary64, mean: M, relative: G, r: Loudness)
    requires
        !absolute.spec_is_nan(),
        is_gated_loudness(powers, absolute, mean, relative, r),
    ensures
        (forall|i: int|
            0 <= i < powers.len() ==> (#[trigger] powers[i]).spec_is_nan() || powers[i].units()
                < absolute.units()) ==> r == Loudness::Silent,
        r matches Loudness::Power(power) ==> exists|level: Binary64, gate: Binary64, i: int|
            {
                &&& #[trigger] relative.ensures((level,), gate)
                &&& 0 <= i < powers.len()
                &&& !(#[trigger] powers[i]).spec_is_nan()
                &&& powers[i].units() >= absolute.units()
                &&& gate.spec_is_nan() || powers[i].units() >= gate.units()
            },
{
    let audible = gated(powers, absolute);
    if let Loudness::Power(power) = r {
        let (level, gate) = choose|level: Binary64, gate: Binary64|
            {
                &&& crate::frames::measures(mean, audible, level)
                &&& #[trigger] relative.ensures((level,), gate)
                &&& gated(audible, gate).len() > 0
            };
        let first = gated(audible, gate)[0];
        law_gates_nest(powers, absolute, gate, first);
        law_gate(powers, absolute, first);
        crate::ieee::law_reaches_64(first, absolute);
        crate::ieee::law_reaches_64(first, gate);
        let i = choose|i: int| 0 <= i < powers.len() && powers[i] == first;
        assert(relative.ensures((level,), gate) && !powers[i].spec_is_nan());
    }
}

/// A signal is weighted before it is measured: where both filters let everything through,
/// its loudness is that of the signal itself.
pub proof fn law_unweighted_loudness<
    S,
    F: Fn(S, S, S, S, S) -> S,
    H: Fn(S, S, S, S, S) -> S,
    P: Fn(&[S]) -> Binary64,
    M: Fn(&[Binary64]) -> Binary64,
    G: Fn(Binary64) -> Binary64,
>(
    audio: Seq<S>,
    block: int,
    absolute: Binary64,
    zero: S,
    shelf: F,
    highpass: H,
    power: P,
    mean: M,
    relative: G,
    r: Loudness,
)
    requires
        is_weighted_loudness(
            audio,
            block,
            absolute,
            zero,
            shelf,
            highpass,
            power,
            mean,
            relative,
            r,
        ),
        forall|x0: S, x1: S, x2: S, y1: S, y2: S, y: S| #[trigger]
            shelf.ensures((x0, x1, x2, y1, y2), y) ==> y == x0,
        forall|x0: S, x1: S, x2: S, y1: S, y2: S, y: S| #[trigger]
            highpass.ensures((x0, x1, x2, y1, y2), y) ==> y == x0,
    ensures
        is_loudness(audio, block, absolute, power, mean, relative, r),
{
    let weighted = choose|weighted: Seq<S>|
        {
            &&& #[trigger] is_k_weighted(audio, zero, shelf, highpass, weighted)
            &&& is_loudness(weighted, block, absolute, power, mean, relative, r)
        };
    law_shelf_comes_first(audio, zero, shelf, highpass, weighted, zero);
    assert forall|i: int| 0 <= i < audio.len() implies weighted[i] == audio[i] by {
        law_biquad_memory(highpass, audio, weighted, zero, i);
    }
    assert(weighted =~= audio);
}

/// What is measured is the output of the high-pass, whatever the signal: where it answers
/// the same to everything, loudness is that of a signal that holds nothing else.
pub proof fn law_weighted_loudness_hears_the_filters<
    S,
    F: Fn(S, S, S, S, S) -> S,
    H: Fn(S, S, S, S, S) -> S,
    P: Fn(&[S]) -> Binary64,
    M: Fn(&[Binary64]) -> Binary64,
    G: Fn(Binary64) -> Binary64,
>(
    audio: Seq<S>,
    block: int,
    absolute: Binary64,
    zero: S,
    shelf: F,
    highpass: H,
    power: P,
    mean: M,
    relative: G,
    r: Loudness,
    constant: S,
)
    requires
        is_weighted_loudness(
            audio,
            block,
            absolute,
            zero,
            shelf,
            highpass,
            power,
            mean,
            relative,
            r,
        ),
        forall|x0: S, x1: S, x2: S, y1: S, y2: S, y: S| #[trigger]
            highpass.ensures((x0, x1, x2, y1, y2), y) ==> y == constant,
    ensures
        is_loudness(
            Seq::new(audio.len(), |i: int| constant),
            block,
            absolute,
            power,
            mean,
            relative,
            r,
        ),
{
    let weighted = choose|weighted: Seq<S>|
        {
            &&& #[trigger] is_k_weighted(audio, zero, shelf, highpass, weighted)
            &&& is_loudness(weighted, block, absolute, power, mean, relative, r)
        };
    law_shelf_comes_first(audio, zero, shelf, highpass, weighted, zero);
    assert forall|i: int| 0 <= i < weighted.len() implies weighted[i] == constant by {
        assert(is_some_output(highpass, weighted[i]));
    }
    assert(weighted =~= Seq::new(audio.len(), |i: int| constant));
}

/// Trimming looks at windows of 20 ms, 10 ms apart, and keeps whole every one that is not
/// below the threshold.
pub proof fn law_trimmed_part_holds_voice<S, L: Fn(&[S]) -> Binary64>(
    audio: Seq<S>,
    sample_rate: int,
    threshold: Binary64,
    level: L,
    start: int,
    end: int,
    window: int,
    hop: int,
)
    requires
        sample_rate >= 100,
        !threshold.spec_is_nan(),
        is_measured_range(audio, sample_rate, true, threshold, level, start, end),
        50 * window <= sample_rate < 50 * (window + 1),
        100 * hop <= sample_rate < 100 * (hop + 1),
    ensures
        exists|levels: Seq<Binary64>|
            {
                &&& #[trigger] is_voiced_range(
                    levels,
                    audio.len() as int,
                    sample_rate,
                    threshold,
                    start,
                    end,
                )
                &&& levels.len() == 0 || (levels.len() - 1) * hop + window <= audio.len()
                &&& levels.len() * hop + window > audio.len()
                &&& forall|k: int|
                    0 <= k < levels.len() ==> crate::frames::measures(
                        level,
                        audio.subrange(k * hop, k * hop + window),
                        #[trigger] levels[k],
                    )
                &&& forall|k: int|
                    0 <= k < levels.len() && !(#[trigger] levels[k]).spec_is_nan()
                        && levels[k].units() >= threshold.units() ==> start <= k * hop && k * hop
                        + window <= end
            },
{
    assert(window == level_window(sample_rate) && hop == level_hop(sample_rate));
    let len = audio.len() as int;
    let levels = choose|levels: Seq<Binary64>|
        {
            &&& #[trigger] crate::frames::measures_frames(level, audio, window, hop, levels)
            &&& is_voiced_range(levels, len, sample_rate, threshold, start, end)
        };
    let count = levels.len() as int;
    crate::frames::law_frames_fit(len, window, hop, count);
    if count > 0 {
        crate::frames::law_frames_fit(len, window, hop, count - 1);
    }
    assert forall|k: int|
        0 <= k < levels.len() && !(#[trigger] levels[k]).spec_is_nan() && levels[k].units()
            >= threshold.units() implies start <= k * hop && k * hop + window <= end by {
        crate::ieee::law_reaches_64(levels[k], threshold);
        law_voiced_windows_kept(levels, len, sample_rate, threshold, start, end, k);
    }
    assert(is_voiced_range(levels, len, sample_rate, threshold, start, end));
}

} // verus!
