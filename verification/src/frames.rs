//! Cutting a signal into overlapping frames and putting frames back together.
//!
//! The functions here move samples and spectrum bins; what is computed inside a frame is
//! the caller's.

use vstd::arithmetic::div_mod::*;
use vstd::arithmetic::mul::*;
use vstd::prelude::*;

verus! {

// ── Padding ───────────────────────────────────────────────────────────

/// The number of samples that carry `len` on to the next multiple of `hop`.
pub open spec fn hop_padding(len: int, hop: int) -> int {
    (hop - len % hop) % hop
}

/// The number of samples that carry `len` on to the next multiple of `hop`.
pub fn pad_length(len: usize, hop: usize) -> (r: usize)
    requires
        hop > 0,
    ensures
        r == hop_padding(len as int, hop as int),
        r < hop,
{
    (hop - (len % hop)) % hop
}

/// `signal` followed by `count` copies of `zero`.
pub open spec fn zeros_after<T>(signal: Seq<T>, count: int, zero: T) -> Seq<T> {
    signal + Seq::new(count as nat, |i: int| zero)
}

/// Append silence so that the length is a multiple of `hop`.
pub fn pad_to_hop<T: Copy>(signal: &[T], hop: usize, zero: T) -> (r: Vec<T>)
    requires
        hop > 0,
        signal@.len() + hop_padding(signal@.len() as int, hop as int) <= usize::MAX,
    ensures
        r@ == zeros_after(signal@, hop_padding(signal@.len() as int, hop as int), zero),
{
    let pad: usize = pad_length(signal.len(), hop);
    let mut out: Vec<T> = vstd::slice::slice_to_vec(signal);
    for i in 0..pad
        invariant
            out@ == zeros_after(signal@, i as int, zero),
    {
        out.push(zero);
        assert(out@ =~= zeros_after(signal@, i + 1, zero));
    }
    out
}

/// `pad` copies of `zero`, then `signal`, then `pad` copies of `zero`.
pub open spec fn zeros_around<T>(signal: Seq<T>, pad: int, zero: T) -> Seq<T> {
    Seq::new(pad as nat, |i: int| zero) + signal + Seq::new(pad as nat, |i: int| zero)
}

/// Put `pad` silent samples before and after a signal.
pub fn zero_pad<T: Copy>(signal: &[T], pad: usize, zero: T) -> (r: Vec<T>)
    ensures
        r@ == zeros_around(signal@, pad as int, zero),
{
    let mut out: Vec<T> = Vec::new();
    for i in 0..pad
        invariant
            out@ == Seq::new(i as nat, |k: int| zero),
    {
        out.push(zero);
        assert(out@ =~= Seq::new((i + 1) as nat, |k: int| zero));
    }
    for i in 0..signal.len()
        invariant
            out@ == Seq::new(pad as nat, |k: int| zero) + signal@.take(i as int),
    {
        out.push(signal[i]);
        assert(out@ =~= Seq::new(pad as nat, |k: int| zero) + signal@.take(i + 1));
    }
    assert(signal@.take(signal@.len() as int) =~= signal@);
    for i in 0..pad
        invariant
            out@ == Seq::new(pad as nat, |k: int| zero) + signal@ + Seq::new(
                i as nat,
                |k: int| zero,
            ),
    {
        out.push(zero);
        assert(out@ =~= Seq::new(pad as nat, |k: int| zero) + signal@ + Seq::new(
            (i + 1) as nat,
            |k: int| zero,
        ));
    }
    out
}

// ── Frames of a signal ────────────────────────────────────────────────

/// How many frames of `size` samples, `hop` apart, fit into `len` samples.
pub open spec fn frame_count(len: int, size: int, hop: int) -> int {
    if len < size {
        0
    } else {
        (len - size) / hop + 1
    }
}

/// The frames of `size` samples, `hop` apart, of a signal.
pub open spec fn frames_of<T>(signal: Seq<T>, size: int, hop: int) -> Seq<Seq<T>> {
    Seq::new(
        frame_count(signal.len() as int, size, hop) as nat,
        |k: int| signal.subrange(k * hop, k * hop + size),
    )
}

/// The contents of a list of vectors.
pub open spec fn contents<T>(frames: Seq<Vec<T>>) -> Seq<Seq<T>> {
    frames.map_values(|frame: Vec<T>| frame@)
}

/// How many frames of `size` samples, `hop` apart, fit into `len` samples.
pub fn count_frames(len: usize, size: usize, hop: usize) -> (r: usize)
    requires
        hop > 0,
        len - size < usize::MAX,
    ensures
        r == frame_count(len as int, size as int, hop as int),
{
    if len < size {
        0
    } else {
        assert((len - size) / hop as int <= len - size) by (nonlinear_arith)
            requires
                hop > 0,
                len >= size,
        ;
        (len - size) / hop + 1
    }
}

/// The last sample of each frame lies inside the signal.
pub proof fn lemma_frame_fits(len: int, size: int, hop: int, k: int)
    requires
        hop > 0,
        size >= 0,
        0 <= k < frame_count(len, size, hop),
    ensures
        0 <= k * hop,
        k * hop + size <= len,
{
    let last = (len - size) / hop;
    lemma_fundamental_div_mod(len - size, hop);
    assert(k * hop <= last * hop) by (nonlinear_arith)
        requires
            k <= last,
            hop > 0,
    ;
    assert(last * hop == hop * last) by (nonlinear_arith);
    assert(0 <= k * hop) by (nonlinear_arith)
        requires
            0 <= k,
            hop > 0,
    ;
}

/// Cut a signal into frames of `size` samples, `hop` apart.
pub fn split_frames<T: Copy>(signal: &[T], size: usize, hop: usize) -> (r: Vec<Vec<T>>)
    requires
        hop > 0,
        signal@.len() - size < usize::MAX,
    ensures
        contents(r@) == frames_of(signal@, size as int, hop as int),
{
    let len: usize = signal.len();
    let count: usize = count_frames(len, size, hop);
    let mut out: Vec<Vec<T>> = Vec::new();
    for k in 0..count
        invariant
            hop > 0,
            len == signal@.len(),
            count == frame_count(len as int, size as int, hop as int),
            contents(out@) == frames_of(signal@, size as int, hop as int).take(k as int),
    {
        proof {
            lemma_frame_fits(signal@.len() as int, size as int, hop as int, k as int);
        }
        let start: usize = k * hop;
        let frame: Vec<T> = vstd::slice::slice_to_vec(
            vstd::slice::slice_subrange(signal, start, start + size),
        );
        let ghost before = out@;
        out.push(frame);
        assert(contents(out@) =~= contents(before).push(frame@));
        assert(contents(out@) =~= frames_of(signal@, size as int, hop as int).take(k + 1));
    }
    assert(contents(out@) =~= frames_of(signal@, size as int, hop as int));
    out
}

/// `r` is what `measure` makes of the samples `part`.
pub open spec fn measures<S, B, F: Fn(&[S]) -> B>(measure: F, part: Seq<S>, r: B) -> bool {
    exists|samples: &[S]| #[trigger] measure.ensures((samples,), r) && samples@ == part
}

/// `values` is what `measure` makes of the frames of `size` samples, `hop` apart.
pub open spec fn measures_frames<S, B, F: Fn(&[S]) -> B>(
    measure: F,
    signal: Seq<S>,
    size: int,
    hop: int,
    values: Seq<B>,
) -> bool {
    &&& values.len() == frame_count(signal.len() as int, size, hop)
    &&& forall|k: int|
        0 <= k < values.len() ==> measures(
            measure,
            signal.subrange(k * hop, k * hop + size),
            #[trigger] values[k],
        )
}

/// Measure each of the frames of `size` samples, `hop` apart.
pub fn measure_frames<S, B, F: Fn(&[S]) -> B>(
    signal: &[S],
    size: usize,
    hop: usize,
    measure: &F,
) -> (r: Vec<B>)
    requires
        hop > 0 || signal@.len() < size,
        signal@.len() - size < usize::MAX,
        forall|samples: &[S]| #[trigger] measure.requires((samples,)),
    ensures
        measures_frames(*measure, signal@, size as int, hop as int, r@),
{
    let len: usize = signal.len();
    let mut values: Vec<B> = Vec::new();
    if len < size {
        return values;
    }
    let count: usize = count_frames(len, size, hop);
    for k in 0..count
        invariant
            hop > 0,
            len == signal@.len(),
            count == frame_count(len as int, size as int, hop as int),
            forall|samples: &[S]| #[trigger] measure.requires((samples,)),
            values@.len() == k,
            forall|j: int|
                0 <= j < k ==> measures(
                    *measure,
                    signal@.subrange(j * hop, j * hop + size),
                    #[trigger] values@[j],
                ),
    {
        proof {
            lemma_frame_fits(len as int, size as int, hop as int, k as int);
        }
        let start: usize = k * hop;
        let samples: &[S] = vstd::slice::slice_subrange(signal, start, start + size);
        let value: B = measure(samples);
        assert(measure.ensures((samples,), value));
        assert(measures(*measure, signal@.subrange(k * hop, k * hop + size), value));
        values.push(value);
    }
    values
}

/// The frames that a centred short-time transform of `signal` analyses: the signal padded
/// with half a frame of silence at either end, cut every `hop` samples.
pub fn analysis_frames<T: Copy>(signal: &[T], n_fft: usize, hop: usize, zero: T) -> (r: Vec<Vec<T>>)
    requires
        hop > 0,
        signal@.len() + n_fft < usize::MAX,
    ensures
        contents(r@) == frames_of(
            zeros_around(signal@, (n_fft / 2) as int, zero),
            n_fft as int,
            hop as int,
        ),
{
    let padded: Vec<T> = zero_pad(signal, n_fft / 2, zero);
    split_frames(padded.as_slice(), n_fft, hop)
}

/// `after` is what `process` makes of the frame `before`.
pub open spec fn processes<T, C, P: Fn(&[T]) -> Vec<C>>(
    process: P,
    before: Seq<T>,
    after: Seq<C>,
) -> bool {
    exists|frame: &[T], out: Vec<C>| #[trigger]
        process.ensures((frame,), out) && frame@ == before && out@ == after
}

// ── Spectra ───────────────────────────────────────────────────────────

/// The number of bins of a spectrum of `n_fft` points that are kept: those of frequency
/// zero up to half the sampling rate.
pub open spec fn kept_bins(n_fft: int) -> int {
    n_fft / 2 + 1
}

/// Keep the bins of non-negative frequency of a full spectrum.
pub fn positive_bins<C: Copy>(spectrum: &[C], n_fft: usize) -> (r: Vec<C>)
    requires
        spectrum@.len() >= kept_bins(n_fft as int),
    ensures
        r@ == spectrum@.take(kept_bins(n_fft as int)),
{
    vstd::slice::slice_to_vec(vstd::slice::slice_subrange(spectrum, 0, n_fft / 2 + 1))
}

/// `full` is the spectrum of `n_fft` points of a real signal whose bins of non-negative
/// frequency are `half`: those bins, then the conjugates of bins `n_fft / 2 - 1` down to
/// 1, cut off or filled up with `zero` at `n_fft` points.
pub open spec fn is_full_spectrum<C, F: Fn(C) -> C>(
    half: Seq<C>,
    n_fft: int,
    zero: C,
    conjugate: F,
    full: Seq<C>,
) -> bool {
    let mirrored = if n_fft / 2 >= 1 {
        n_fft / 2 - 1
    } else {
        0
    };
    &&& full.len() == n_fft
    &&& forall|i: int| 0 <= i < n_fft && i < half.len() ==> #[trigger] full[i] == half[i]
    &&& forall|i: int|
        half.len() <= i < n_fft && i < half.len() + mirrored ==> conjugate.ensures(
            (half[n_fft / 2 - 1 - (i - half.len())],),
            #[trigger] full[i],
        )
    &&& forall|i: int| half.len() + mirrored <= i < n_fft ==> #[trigger] full[i] == zero
}

/// Rebuild the full spectrum of a real signal from its bins of non-negative frequency.
pub fn full_spectrum<C: Copy, F: Fn(C) -> C>(
    half: &[C],
    n_fft: usize,
    zero: C,
    conjugate: &F,
) -> (r: Vec<C>)
    requires
        n_fft / 2 <= 1 || half@.len() >= n_fft / 2,
        forall|c: C| #[trigger] conjugate.requires((c,)),
    ensures
        is_full_spectrum(half@, n_fft as int, zero, *conjugate, r@),
{
    let bins: usize = half.len();
    let mut full: Vec<C> = Vec::new();
    for i in 0..n_fft
        invariant
            bins == half@.len(),
            n_fft / 2 <= 1 || bins >= n_fft / 2,
            forall|c: C| #[trigger] conjugate.requires((c,)),
            full@.len() == i,
            forall|k: int| 0 <= k < i && k < bins ==> #[trigger] full@[k] == half@[k],
            forall|k: int|
                bins <= k < i && k - bins < n_fft / 2 - 1 ==> conjugate.ensures(
                    (half@[n_fft / 2 - 1 - (k - bins)],),
                    #[trigger] full@[k],
                ),
            forall|k: int|
                bins <= k < i && k - bins >= n_fft / 2 - 1 ==> #[trigger] full@[k] == zero,
    {
        if i < bins {
            full.push(half[i]);
        } else if i - bins + 1 < n_fft / 2 {
            full.push(conjugate(half[n_fft / 2 - 1 - (i - bins)]));
        } else {
            full.push(zero);
        }
    }
    full
}

/// `bins` are the bins of non-negative frequency of what `transform` makes of a frame.
pub open spec fn is_half_spectrum<T, C, F: Fn(&[T]) -> Vec<C>>(
    transform: F,
    n_fft: int,
    frame: Seq<T>,
    bins: Seq<C>,
) -> bool {
    exists|spectrum: Seq<C>| #[trigger]
        processes(transform, frame, spectrum) && bins == spectrum.take(kept_bins(n_fft))
}

/// `spectra` is the short-time transform of a signal, frame by frame.
pub open spec fn is_stft<T, C, F: Fn(&[T]) -> Vec<C>>(
    audio: Seq<T>,
    n_fft: int,
    hop: int,
    zero: T,
    transform: F,
    spectra: Seq<Seq<C>>,
) -> bool {
    let frames = frames_of(zeros_around(audio, n_fft / 2, zero), n_fft, hop);
    &&& spectra.len() == frames.len()
    &&& forall|k: int|
        0 <= k < spectra.len() ==> is_half_spectrum(
            transform,
            n_fft,
            frames[k],
            #[trigger] spectra[k],
        )
}

/// Short-time transform of a signal, centred: each frame that `analysis_frames` cuts goes
/// through `transform`, and its bins of non-negative frequency are kept.
pub fn stft<T: Copy, C: Copy, F: Fn(&[T]) -> Vec<C>>(
    audio: &[T],
    n_fft: usize,
    hop: usize,
    zero: T,
    transform: &F,
) -> (r: Vec<Vec<C>>)
    requires
        n_fft > 0,
        hop > 0,
        audio@.len() + n_fft < usize::MAX,
        forall|frame: &[T]| frame@.len() == n_fft ==> #[trigger] transform.requires((frame,)),
        forall|frame: &[T], out: Vec<C>|
            frame@.len() == n_fft && #[trigger] transform.ensures((frame,), out) ==> out@.len()
                == n_fft,
    ensures
        is_stft(audio@, n_fft as int, hop as int, zero, *transform, contents(r@)),
{
    let cut: Vec<Vec<T>> = analysis_frames(audio, n_fft, hop, zero);
    let ghost frames = frames_of(
        zeros_around(audio@, (n_fft / 2) as int, zero),
        n_fft as int,
        hop as int,
    );
    let ghost padded_len = audio@.len() + 2 * (n_fft as int / 2);
    assert(contents(cut@).len() == cut@.len());
    let mut spectra: Vec<Vec<C>> = Vec::new();
    for k in 0..cut.len()
        invariant
            n_fft > 0,
            hop > 0,
            contents(cut@) == frames,
            cut@.len() == frames.len(),
            frames == frames_of(
                zeros_around(audio@, (n_fft / 2) as int, zero),
                n_fft as int,
                hop as int,
            ),
            padded_len == zeros_around(audio@, (n_fft / 2) as int, zero).len(),
            forall|frame: &[T]| frame@.len() == n_fft ==> #[trigger] transform.requires((frame,)),
            forall|frame: &[T], out: Vec<C>|
                frame@.len() == n_fft && #[trigger] transform.ensures((frame,), out) ==> out@.len()
                    == n_fft,
            spectra@.len() == k,
            forall|j: int|
                0 <= j < k ==> is_half_spectrum(
                    *transform,
                    n_fft as int,
                    frames[j],
                    (#[trigger] spectra@[j])@,
                ),
    {
        proof {
            lemma_frame_fits(padded_len, n_fft as int, hop as int, k as int);
            assert(cut@[k as int]@ == frames[k as int]);
        }
        let frame: &[T] = cut[k].as_slice();
        let spectrum: Vec<C> = transform(frame);
        assert(transform.ensures((frame,), spectrum) && frame@ == frames[k as int]);
        assert(processes(*transform, frames[k as int], spectrum@));
        spectra.push(positive_bins(spectrum.as_slice(), n_fft));
    }
    let ghost done = contents(spectra@);
    assert forall|k: int| 0 <= k < done.len() implies is_half_spectrum(
        *transform,
        n_fft as int,
        frames[k],
        #[trigger] done[k],
    ) by {
        assert(done[k] == spectra@[k]@);
    }
    spectra
}

// ── Overlap and add ───────────────────────────────────────────────────

/// What the frames, `hop` apart, have at position `p`, in the order of the frames.
pub open spec fn contributions<T>(frames: Seq<Seq<T>>, hop: int, p: int) -> Seq<T>
    decreases frames.len(),
{
    if frames.len() == 0 {
        Seq::empty()
    } else {
        let before = contributions(frames.drop_last(), hop, p);
        let i = p - (frames.len() - 1) * hop;
        if 0 <= i < frames.last().len() {
            before.push(frames.last()[i])
        } else {
            before
        }
    }
}

/// `r` comes out when `terms` are added to `start` one after the other.
pub open spec fn adds_up<T, A: Fn(T, T) -> T>(plus: A, start: T, terms: Seq<T>, r: T) -> bool
    decreases terms.len(),
{
    if terms.len() == 0 {
        r == start
    } else {
        exists|so_far: T|
            #![trigger plus.ensures((so_far, terms.last()), r)]
            adds_up(plus, start, terms.drop_last(), so_far) && plus.ensures(
                (so_far, terms.last()),
                r,
            )
    }
}

proof fn lemma_adds_one_more<T, A: Fn(T, T) -> T>(
    plus: A,
    start: T,
    terms: Seq<T>,
    so_far: T,
    term: T,
    r: T,
)
    requires
        adds_up(plus, start, terms, so_far),
        plus.ensures((so_far, term), r),
    ensures
        adds_up(plus, start, terms.push(term), r),
{
    let longer = terms.push(term);
    assert(longer.drop_last() =~= terms);
    assert(longer.last() == term);
    assert(adds_up(plus, start, longer.drop_last(), so_far) && plus.ensures(
        (so_far, longer.last()),
        r,
    ));
}

/// The length of `count` frames of `size` samples laid `hop` apart.
pub open spec fn overlapped_len(count: int, size: int, hop: int) -> int {
    (count - 1) * hop + size
}

/// Lay frames of `size` samples `hop` apart and add up what lies on top of each other.
pub fn overlap_add<T: Copy, A: Fn(T, T) -> T>(
    frames: &[Vec<T>],
    size: usize,
    hop: usize,
    zero: T,
    plus: &A,
) -> (r: Vec<T>)
    requires
        frames@.len() > 0,
        forall|k: int| 0 <= k < frames@.len() ==> #[trigger] frames@[k]@.len() == size,
        overlapped_len(frames@.len() as int, size as int, hop as int) <= usize::MAX,
        forall|a: T, b: T| #[trigger] plus.requires((a, b)),
    ensures
        r@.len() == overlapped_len(frames@.len() as int, size as int, hop as int),
        forall|p: int|
            0 <= p < r@.len() ==> adds_up(
                *plus,
                zero,
                contributions(contents(frames@), hop as int, p),
                #[trigger] r@[p],
            ),
{
    let count: usize = frames.len();
    assert(0 <= (count - 1) * hop) by (nonlinear_arith)
        requires
            count >= 1,
            hop >= 0,
    ;
    let total: usize = (count - 1) * hop + size;
    let mut out: Vec<T> = Vec::new();
    for p in 0..total
        invariant
            out@.len() == p,
            forall|q: int| 0 <= q < p ==> #[trigger] out@[q] == zero,
    {
        out.push(zero);
    }
    let ghost all = contents(frames@);
    assert(all.take(0) =~= Seq::empty());
    for k in 0..count
        invariant
            count == frames@.len(),
            forall|j: int| 0 <= j < frames@.len() ==> #[trigger] frames@[j]@.len() == size,
            total == overlapped_len(count as int, size as int, hop as int),
            forall|a: T, b: T| #[trigger] plus.requires((a, b)),
            all == contents(frames@),
            out@.len() == total,
            forall|p: int|
                0 <= p < total ==> adds_up(
                    *plus,
                    zero,
                    contributions(all.take(k as int), hop as int, p),
                    #[trigger] out@[p],
                ),
    {
        assert(0 <= k * hop && k * hop + size <= total) by (nonlinear_arith)
            requires
                total == (count - 1) * hop + size,
                0 <= k < count,
                hop >= 0,
        ;
        let pos: usize = k * hop;
        let ghost upto = all.take(k as int);
        let ghost next = all.take(k + 1);
        assert(next.drop_last() =~= upto);
        assert(next.last() == frames@[k as int]@);
        let ghost before = out@;
        for i in 0..size
            invariant
                k < count,
                count == frames@.len(),
                frames@[k as int]@.len() == size,
                pos == k * hop,
                pos + size <= total,
                forall|a: T, b: T| #[trigger] plus.requires((a, b)),
                next.len() == k + 1,
                next.drop_last() == upto,
                next.last() == frames@[k as int]@,
                out@.len() == total,
                before.len() == total,
                forall|p: int|
                    0 <= p < total ==> adds_up(
                        *plus,
                        zero,
                        contributions(upto, hop as int, p),
                        #[trigger] before[p],
                    ),
                forall|p: int|
                    0 <= p < total && !(pos <= p < pos + i) ==> #[trigger] out@[p] == before[p],
                forall|p: int|
                    pos <= p < pos + i ==> adds_up(
                        *plus,
                        zero,
                        contributions(next, hop as int, p),
                        #[trigger] out@[p],
                    ),
        {
            let so_far: T = out[pos + i];
            let term: T = frames[k][i];
            let sum: T = plus(so_far, term);
            out.set(pos + i, sum);
            proof {
                let p = pos + i;
                assert(before[p] == so_far);
                assert(contributions(next, hop as int, p) == contributions(
                    upto,
                    hop as int,
                    p,
                ).push(term));
                lemma_adds_one_more(
                    *plus,
                    zero,
                    contributions(upto, hop as int, p),
                    so_far,
                    term,
                    sum,
                );
            }
        }
        assert forall|p: int| 0 <= p < total implies adds_up(
            *plus,
            zero,
            contributions(all.take(k + 1), hop as int, p),
            #[trigger] out@[p],
        ) by {
            if !(pos <= p < pos + size) {
                assert(out@[p] == before[p]);
                assert(contributions(next, hop as int, p) == contributions(upto, hop as int, p));
            }
        }
    }
    assert(all.take(count as int) =~= all);
    out
}

/// Lay frames of `size` samples `hop` apart, add up what lies on top of each other, and
/// settle each sum against the sum of the window weights that fell on it.
pub fn overlap_add_normalized<T: Copy, A: Fn(T, T) -> T, N: Fn(T, T) -> T>(
    frames: &[Vec<T>],
    weights: &[T],
    hop: usize,
    zero: T,
    plus: &A,
    normalize: &N,
) -> (r: Vec<T>)
    requires
        frames@.len() > 0,
        forall|k: int| 0 <= k < frames@.len() ==> #[trigger] frames@[k]@.len() == weights@.len(),
        overlapped_len(frames@.len() as int, weights@.len() as int, hop as int) <= usize::MAX,
        forall|a: T, b: T| #[trigger] plus.requires((a, b)),
        forall|a: T, b: T| #[trigger] normalize.requires((a, b)),
    ensures
        is_overlap_add(contents(frames@), weights@, hop as int, zero, *plus, *normalize, r@),
{
    let size: usize = weights.len();
    let sums: Vec<T> = overlap_add(frames, size, hop, zero, plus);
    let mut windows: Vec<Vec<T>> = Vec::new();
    for k in 0..frames.len()
        invariant
            windows@.len() == k,
            forall|j: int| 0 <= j < k ==> #[trigger] windows@[j]@ == weights@,
    {
        windows.push(vstd::slice::slice_to_vec(weights));
    }
    let norms: Vec<T> = overlap_add(windows.as_slice(), size, hop, zero, plus);
    assert(contents(windows@) =~= Seq::new(contents(frames@).len(), |k: int| weights@));
    let mut out: Vec<T> = Vec::new();
    for p in 0..sums.len()
        invariant
            norms@.len() == sums@.len(),
            forall|a: T, b: T| #[trigger] normalize.requires((a, b)),
            out@.len() == p,
            forall|q: int|
                0 <= q < p ==> normalize.ensures((sums@[q], norms@[q]), #[trigger] out@[q]),
    {
        out.push(normalize(sums[p], norms[p]));
    }
    assert forall|p: int| 0 <= p < out@.len() implies settles(
        contributions(contents(frames@), hop as int, p),
        contributions(contents(windows@), hop as int, p),
        zero,
        *plus,
        *normalize,
        #[trigger] out@[p],
    ) by {
        assert(adds_up(*plus, zero, contributions(contents(frames@), hop as int, p), sums@[p]));
        assert(adds_up(*plus, zero, contributions(contents(windows@), hop as int, p), norms@[p]));
        assert(normalize.ensures((sums@[p], norms@[p]), out@[p]));
    }
    out
}

/// `out` is the overlap-add of `frames`, each position settled by `normalize` against the
/// sum of the weights that fell on it.
pub open spec fn is_overlap_add<T, A: Fn(T, T) -> T, N: Fn(T, T) -> T>(
    frames: Seq<Seq<T>>,
    weights: Seq<T>,
    hop: int,
    zero: T,
    plus: A,
    normalize: N,
    out: Seq<T>,
) -> bool {
    let windows = Seq::new(frames.len(), |k: int| weights);
    &&& out.len() == overlapped_len(frames.len() as int, weights.len() as int, hop)
    &&& forall|p: int|
        0 <= p < out.len() ==> settles(
            contributions(frames, hop, p),
            contributions(windows, hop, p),
            zero,
            plus,
            normalize,
            #[trigger] out[p],
        )
}

/// `r` is what `normalize` makes of the sum of `terms` and the sum of `weights`.
pub open spec fn settles<T, A: Fn(T, T) -> T, N: Fn(T, T) -> T>(
    terms: Seq<T>,
    weights: Seq<T>,
    zero: T,
    plus: A,
    normalize: N,
    r: T,
) -> bool {
    exists|sum: T, norm: T|
        #![trigger normalize.ensures((sum, norm), r)]
        {
            &&& adds_up(plus, zero, terms, sum)
            &&& adds_up(plus, zero, weights, norm)
            &&& normalize.ensures((sum, norm), r)
        }
}

/// `out` is the overlap-add of `frames` without the half frame in front, cut off at
/// `output_len` samples.
pub open spec fn is_synthesized<T, A: Fn(T, T) -> T, N: Fn(T, T) -> T>(
    frames: Seq<Seq<T>>,
    weights: Seq<T>,
    hop: int,
    output_len: int,
    zero: T,
    plus: A,
    normalize: N,
    out: Seq<T>,
) -> bool {
    let total = overlapped_len(frames.len() as int, weights.len() as int, hop);
    let start = weights.len() as int / 2;
    let end = if start + output_len <= total {
        start + output_len
    } else {
        total
    };
    exists|full: Seq<T>| #[trigger]
        is_overlap_add(frames, weights, hop, zero, plus, normalize, full) && out == full.subrange(
            start,
            end,
        )
}

/// Put the frames of a centred short-time transform back together: overlap-add, drop the
/// half frame in front, and keep at most `output_len` samples.
pub fn synthesize<T: Copy, A: Fn(T, T) -> T, N: Fn(T, T) -> T>(
    frames: &[Vec<T>],
    weights: &[T],
    hop: usize,
    output_len: usize,
    zero: T,
    plus: &A,
    normalize: &N,
) -> (r: Vec<T>)
    requires
        frames@.len() > 0,
        forall|k: int| 0 <= k < frames@.len() ==> #[trigger] frames@[k]@.len() == weights@.len(),
        overlapped_len(frames@.len() as int, weights@.len() as int, hop as int) <= usize::MAX,
        weights@.len() / 2 + output_len <= usize::MAX,
        forall|a: T, b: T| #[trigger] plus.requires((a, b)),
        forall|a: T, b: T| #[trigger] normalize.requires((a, b)),
    ensures
        is_synthesized(
            contents(frames@),
            weights@,
            hop as int,
            output_len as int,
            zero,
            *plus,
            *normalize,
            r@,
        ),
{
    let full: Vec<T> = overlap_add_normalized(frames, weights, hop, zero, plus, normalize);
    proof {
        assert(0 <= (frames@.len() - 1) * hop) by (nonlinear_arith)
            requires
                frames@.len() >= 1,
                hop >= 0,
        ;
    }
    let start: usize = weights.len() / 2;
    let end: usize = if start + output_len <= full.len() {
        start + output_len
    } else {
        full.len()
    };
    vstd::slice::slice_to_vec(vstd::slice::slice_subrange(full.as_slice(), start, end))
}

/// `frame` is what `inverse` makes of the full spectrum whose bins of non-negative
/// frequency are `half`.
pub open spec fn is_inverse_of<T, C, J: Fn(C) -> C, I: Fn(&[C]) -> Vec<T>>(
    half: Seq<C>,
    n_fft: int,
    zero_bin: C,
    conjugate: J,
    inverse: I,
    frame: Seq<T>,
) -> bool {
    exists|full: Seq<C>| #[trigger]
        is_full_spectrum(half, n_fft, zero_bin, conjugate, full) && processes(inverse, full, frame)
}

/// `out` is what comes out of the spectra: each turned back into a frame, the frames put
/// together.
pub open spec fn is_istft<
    T,
    C,
    J: Fn(C) -> C,
    I: Fn(&[C]) -> Vec<T>,
    A: Fn(T, T) -> T,
    N: Fn(T, T) -> T,
>(
    spectra: Seq<Seq<C>>,
    weights: Seq<T>,
    hop: int,
    output_len: int,
    zero_bin: C,
    conjugate: J,
    inverse: I,
    zero: T,
    plus: A,
    normalize: N,
    out: Seq<T>,
) -> bool {
    exists|frames: Seq<Seq<T>>|
        {
            &&& frames.len() == spectra.len()
            &&& forall|k: int|
                0 <= k < frames.len() ==> is_inverse_of(
                    spectra[k],
                    weights.len() as int,
                    zero_bin,
                    conjugate,
                    inverse,
                    #[trigger] frames[k],
                )
            &&& #[trigger] is_synthesized(
                frames,
                weights,
                hop,
                output_len,
                zero,
                plus,
                normalize,
                out,
            )
        }
}

/// Inverse of a centred short-time transform: the full spectrum of each half one goes
/// through `inverse`, and the frames are put together. The number of points is that of
/// `weights`.
pub fn istft<
    T: Copy,
    C: Copy,
    J: Fn(C) -> C,
    I: Fn(&[C]) -> Vec<T>,
    A: Fn(T, T) -> T,
    N: Fn(T, T) -> T,
>(
    spectra: &[Vec<C>],
    weights: &[T],
    hop: usize,
    output_len: usize,
    zero_bin: C,
    conjugate: &J,
    inverse: &I,
    zero: T,
    plus: &A,
    normalize: &N,
) -> (r: Vec<T>)
    requires
        spectra@.len() > 0,
        weights@.len() / 2 <= 1 || forall|k: int|
            0 <= k < spectra@.len() ==> #[trigger] spectra@[k]@.len() >= weights@.len() / 2,
        overlapped_len(spectra@.len() as int, weights@.len() as int, hop as int) <= usize::MAX,
        weights@.len() / 2 + output_len <= usize::MAX,
        forall|c: C| #[trigger] conjugate.requires((c,)),
        forall|full: &[C]| full@.len() == weights@.len() ==> #[trigger] inverse.requires((full,)),
        forall|full: &[C], out: Vec<T>|
            full@.len() == weights@.len() && #[trigger] inverse.ensures((full,), out)
                ==> out@.len() == weights@.len(),
        forall|a: T, b: T| #[trigger] plus.requires((a, b)),
        forall|a: T, b: T| #[trigger] normalize.requires((a, b)),
    ensures
        is_istft(
            contents(spectra@),
            weights@,
            hop as int,
            output_len as int,
            zero_bin,
            *conjugate,
            *inverse,
            zero,
            *plus,
            *normalize,
            r@,
        ),
{
    let n_fft: usize = weights.len();
    let mut frames: Vec<Vec<T>> = Vec::new();
    for k in 0..spectra.len()
        invariant
            n_fft == weights@.len(),
            n_fft / 2 <= 1 || forall|j: int|
                0 <= j < spectra@.len() ==> #[trigger] spectra@[j]@.len() >= n_fft / 2,
            forall|c: C| #[trigger] conjugate.requires((c,)),
            forall|full: &[C]|
                full@.len() == weights@.len() ==> #[trigger] inverse.requires((full,)),
            forall|full: &[C], out: Vec<T>|
                full@.len() == weights@.len() && #[trigger] inverse.ensures((full,), out)
                    ==> out@.len() == weights@.len(),
            frames@.len() == k,
            forall|j: int|
                0 <= j < k ==> (#[trigger] frames@[j])@.len() == n_fft && is_inverse_of(
                    spectra@[j]@,
                    n_fft as int,
                    zero_bin,
                    *conjugate,
                    *inverse,
                    frames@[j]@,
                ),
    {
        let full: Vec<C> = full_spectrum(spectra[k].as_slice(), n_fft, zero_bin, conjugate);
        let points: &[C] = full.as_slice();
        let frame: Vec<T> = inverse(points);
        assert(inverse.ensures((points,), frame) && points@ == full@);
        assert(processes(*inverse, full@, frame@));
        frames.push(frame);
    }
    let ghost done = contents(frames@);
    let ghost given = contents(spectra@);
    assert forall|k: int| 0 <= k < done.len() implies is_inverse_of(
        given[k],
        n_fft as int,
        zero_bin,
        *conjugate,
        *inverse,
        #[trigger] done[k],
    ) by {
        assert(done[k] == frames@[k]@);
    }
    synthesize(frames.as_slice(), weights, hop, output_len, zero, plus, normalize)
}

// ── Laws ──────────────────────────────────────────────────────────────

/// Padding to the hop makes the length a multiple of the hop, with fewer than `hop`
/// samples added.
pub proof fn law_hop_padding(len: int, hop: int)
    requires
        len >= 0,
        hop > 0,
    ensures
        0 <= hop_padding(len, hop) < hop,
        (len + hop_padding(len, hop)) % hop == 0,
{
    let k = len % hop;
    lemma_fundamental_div_mod(len, hop);
    if k == 0 {
        lemma_mod_self_0(hop);
    } else {
        lemma_small_mod((hop - k) as nat, hop as nat);
        assert(len + (hop - k) == (len / hop + 1) * hop + 0) by (nonlinear_arith)
            requires
                len == hop * (len / hop) + k,
        ;
        lemma_fundamental_div_mod_converse(len + (hop - k), hop, len / hop + 1, 0);
    }
}

/// Frames at most their own length apart leave no gap: something falls on every position.
pub proof fn law_overlap_covers<T>(frames: Seq<Seq<T>>, size: int, hop: int, p: int)
    requires
        frames.len() > 0,
        forall|k: int| 0 <= k < frames.len() ==> #[trigger] frames[k].len() == size,
        0 < hop <= size,
        0 <= p < overlapped_len(frames.len() as int, size, hop),
    ensures
        contributions(frames, hop, p).len() > 0,
    decreases frames.len(),
{
    let last = frames.len() - 1;
    assert(frames.last().len() == size);
    if p < last * hop {
        let fewer = frames.drop_last();
        assert forall|k: int| 0 <= k < fewer.len() implies #[trigger] fewer[k].len() == size by {
            assert(fewer[k] == frames[k]);
        }
        assert(last > 0) by (nonlinear_arith)
            requires
                0 <= p < last * hop,
                hop > 0,
        ;
        assert(last * hop <= overlapped_len(last, size, hop)) by (nonlinear_arith)
            requires
                overlapped_len(last, size, hop) == (last - 1) * hop + size,
                hop <= size,
        ;
        law_overlap_covers(fewer, size, hop, p);
    }
}

proof fn lemma_first_frames_agree<T>(signal: Seq<T>, size: int, hop: int, n: int, p: int)
    requires
        size >= 0,
        hop > 0,
        0 <= n <= frame_count(signal.len() as int, size, hop),
    ensures
        forall|k: int|
            0 <= k < contributions(frames_of(signal, size, hop).take(n), hop, p).len()
                ==> #[trigger] contributions(frames_of(signal, size, hop).take(n), hop, p)[k]
                == signal[p],
    decreases n,
{
    let frames = frames_of(signal, size, hop);
    if n > 0 {
        lemma_first_frames_agree(signal, size, hop, n - 1, p);
        lemma_frame_fits(signal.len() as int, size, hop, n - 1);
        let upto = frames.take(n);
        assert(upto.drop_last() =~= frames.take(n - 1));
        let last = signal.subrange((n - 1) * hop, (n - 1) * hop + size);
        assert(upto.last() == last);
        let before = contributions(upto.drop_last(), hop, p);
        let i = p - (n - 1) * hop;
        assert(contributions(upto, hop, p) == if 0 <= i < size {
            before.push(last[i])
        } else {
            before
        });
    }
}

/// The frames of a signal agree with it: whatever falls on a position when they are laid
/// `hop` apart is the sample that stood there.
pub proof fn law_frames_agree<T>(signal: Seq<T>, size: int, hop: int, p: int, k: int)
    requires
        size >= 0,
        hop > 0,
        0 <= k < contributions(frames_of(signal, size, hop), hop, p).len(),
    ensures
        contributions(frames_of(signal, size, hop), hop, p)[k] == signal[p],
{
    let frames = frames_of(signal, size, hop);
    assert(frame_count(signal.len() as int, size, hop) >= 0) by {
        if signal.len() >= size {
            lemma_div_pos_is_pos(signal.len() - size, hop);
        }
    }
    assert(frames.take(frames.len() as int) =~= frames);
    lemma_first_frames_agree(signal, size, hop, frames.len() as int, p);
}

/// `back` is `frame` weighted sample by sample, as `weigh` says of a sample, its weight and
/// what comes of them.
pub open spec fn is_weighted_frame<T>(
    frame: Seq<T>,
    weights: Seq<T>,
    weigh: spec_fn(T, T, T) -> bool,
    back: Seq<T>,
) -> bool {
    &&& back.len() == frame.len()
    &&& forall|i: int| 0 <= i < back.len() ==> weigh(frame[i], weights[i], #[trigger] back[i])
}

/// `terms` is one sample with each of the weights.
pub open spec fn are_weighted<T>(
    sample: T,
    weights: Seq<T>,
    weigh: spec_fn(T, T, T) -> bool,
    terms: Seq<T>,
) -> bool {
    &&& terms.len() == weights.len()
    &&& forall|k: int| 0 <= k < terms.len() ==> weigh(sample, weights[k], #[trigger] terms[k])
}

/// A sample that fell on position `p` with each of the weights there settles close to
/// itself, where `count` frames are laid `hop` apart.
pub open spec fn settles_back<T, A: Fn(T, T) -> T, N: Fn(T, T) -> T>(
    weights: Seq<T>,
    count: nat,
    hop: int,
    zero: T,
    plus: A,
    normalize: N,
    weigh: spec_fn(T, T, T) -> bool,
    close: spec_fn(T, T) -> bool,
    p: int,
) -> bool {
    let there = contributions(Seq::new(count, |k: int| weights), hop, p);
    forall|sample: T, terms: Seq<T>, r: T|
        terms.len() > 0 && #[trigger] are_weighted(sample, there, weigh, terms) && #[trigger]
        settles(terms, there, zero, plus, normalize, r) ==> close(sample, r)
}

pub proof fn lemma_weighted_contributions<T>(
    signal: Seq<T>,
    weights: Seq<T>,
    hop: int,
    backs: Seq<Seq<T>>,
    weigh: spec_fn(T, T, T) -> bool,
    n: int,
    p: int,
)
    requires
        hop > 0,
        backs.len() == frame_count(signal.len() as int, weights.len() as int, hop),
        forall|k: int|
            0 <= k < backs.len() ==> is_weighted_frame(
                frames_of(signal, weights.len() as int, hop)[k],
                weights,
                weigh,
                #[trigger] backs[k],
            ),
        0 <= n <= backs.len(),
    ensures
        are_weighted(
            signal[p],
            contributions(Seq::new(n as nat, |k: int| weights), hop, p),
            weigh,
            contributions(backs.take(n), hop, p),
        ),
    decreases n,
{
    let size = weights.len() as int;
    let windows = Seq::new(n as nat, |k: int| weights);
    if n > 0 {
        lemma_weighted_contributions(signal, weights, hop, backs, weigh, n - 1, p);
        lemma_frame_fits(signal.len() as int, size, hop, n - 1);
        let fewer = Seq::new((n - 1) as nat, |k: int| weights);
        assert(windows.drop_last() =~= fewer);
        let upto = backs.take(n);
        assert(upto.drop_last() =~= backs.take(n - 1));
        assert(upto.last() == backs[n - 1]);
        let frame = signal.subrange((n - 1) * hop, (n - 1) * hop + size);
        assert(frames_of(signal, size, hop)[n - 1] == frame);
        assert(is_weighted_frame(frame, weights, weigh, backs[n - 1]));
        let i = p - (n - 1) * hop;
        let terms = contributions(upto, hop, p);
        let there = contributions(windows, hop, p);
        assert(terms == if 0 <= i < size {
            contributions(upto.drop_last(), hop, p).push(backs[n - 1][i])
        } else {
            contributions(upto.drop_last(), hop, p)
        });
        assert(there == if 0 <= i < size {
            contributions(fewer, hop, p).push(weights[i])
        } else {
            contributions(fewer, hop, p)
        });
        if 0 <= i < size {
            assert(weigh(frame[i], weights[i], backs[n - 1][i]));
        }
    }
}

proof fn lemma_frames_reach(len: int, n_fft: int, hop: int)
    requires
        len >= 0,
        n_fft > 0,
        0 < hop <= n_fft / 2 + 1,
        len > 0 || n_fft % 2 == 0,
    ensures
        frame_count(len + 2 * (n_fft / 2), n_fft, hop) >= 1,
        overlapped_len(frame_count(len + 2 * (n_fft / 2), n_fft, hop), n_fft, hop) >= n_fft / 2
            + len,
{
    let rest = len + 2 * (n_fft / 2) - n_fft;
    let last = rest / hop;
    lemma_fundamental_div_mod(rest, hop);
    lemma_mod_bound(rest, hop);
    lemma_div_pos_is_pos(rest, hop);
    assert(last * hop == hop * last) by (nonlinear_arith);
}

/// The frames of a centred transform, each weighted sample by sample, give the signal back
/// when they are put together again: as many samples, each as close to itself as a sample
/// settles that was given the weights that fell on it.
pub proof fn law_weighted_frames_give_signal_back<T, A: Fn(T, T) -> T, N: Fn(T, T) -> T>(
    signal: Seq<T>,
    weights: Seq<T>,
    hop: int,
    zero: T,
    backs: Seq<Seq<T>>,
    plus: A,
    normalize: N,
    weigh: spec_fn(T, T, T) -> bool,
    close: spec_fn(T, T) -> bool,
    out: Seq<T>,
)
    requires
        weights.len() > 0,
        0 < hop <= weights.len() / 2 + 1,
        signal.len() > 0 || weights.len() % 2 == 0,
        ({
            let n_fft = weights.len() as int;
            let frames = frames_of(zeros_around(signal, n_fft / 2, zero), n_fft, hop);
            &&& backs.len() == frames.len()
            &&& forall|k: int|
                0 <= k < backs.len() ==> is_weighted_frame(
                    frames[k],
                    weights,
                    weigh,
                    #[trigger] backs[k],
                )
        }),
        is_synthesized(backs, weights, hop, signal.len() as int, zero, plus, normalize, out),
        forall|i: int|
            0 <= i < signal.len() ==> #[trigger] settles_back(
                weights,
                backs.len(),
                hop,
                zero,
                plus,
                normalize,
                weigh,
                close,
                weights.len() as int / 2 + i,
            ),
    ensures
        out.len() == signal.len(),
        forall|i: int| 0 <= i < signal.len() ==> close(signal[i], #[trigger] out[i]),
{
    let n_fft = weights.len() as int;
    let half = n_fft / 2;
    let padded = zeros_around(signal, half, zero);
    let frames = frames_of(padded, n_fft, hop);
    lemma_frames_reach(signal.len() as int, n_fft, hop);
    assert(padded.len() == signal.len() + 2 * half);
    let full = choose|full: Seq<T>| #[trigger]
        is_overlap_add(backs, weights, hop, zero, plus, normalize, full) && out
            == full.subrange(half, half + signal.len());
    assert forall|i: int| 0 <= i < signal.len() implies close(signal[i], #[trigger] out[i]) by {
        let p = half + i;
        assert(settles_back(weights, backs.len(), hop, zero, plus, normalize, weigh, close, p));
        assert(padded[p] == signal[i]);
        lemma_weighted_contributions(
            padded,
            weights,
            hop,
            backs,
            weigh,
            backs.len() as int,
            p,
        );
        assert(backs.take(backs.len() as int) =~= backs);
        let windows = Seq::new(backs.len(), |k: int| weights);
        assert forall|k: int| 0 <= k < backs.len() implies #[trigger] backs[k].len() == n_fft by {
            assert(is_weighted_frame(frames[k], weights, weigh, backs[k]));
            lemma_frame_fits(padded.len() as int, n_fft, hop, k);
        }
        law_overlap_covers(backs, n_fft, hop, p);
        assert(settles(
            contributions(backs, hop, p),
            contributions(windows, hop, p),
            zero,
            plus,
            normalize,
            full[p],
        ));
        assert(are_weighted(
            signal[i],
            contributions(windows, hop, p),
            weigh,
            contributions(backs, hop, p),
        ));
    }
}

/// What a centred transform takes apart, its inverse puts together again: where the inverse
/// of the transform of a frame is the frame, weighted sample by sample, and a sample settles
/// close to itself, the signal comes back, each sample close to itself.
pub proof fn law_istft_inverts_stft<
    T,
    C,
    F: Fn(&[T]) -> Vec<C>,
    J: Fn(C) -> C,
    I: Fn(&[C]) -> Vec<T>,
    A: Fn(T, T) -> T,
    N: Fn(T, T) -> T,
>(
    signal: Seq<T>,
    weights: Seq<T>,
    hop: int,
    zero: T,
    transform: F,
    spectra: Seq<Seq<C>>,
    zero_bin: C,
    conjugate: J,
    inverse: I,
    plus: A,
    normalize: N,
    weigh: spec_fn(T, T, T) -> bool,
    close: spec_fn(T, T) -> bool,
    out: Seq<T>,
)
    requires
        weights.len() > 0,
        0 < hop <= weights.len() / 2 + 1,
        signal.len() > 0 || weights.len() % 2 == 0,
        is_stft(signal, weights.len() as int, hop, zero, transform, spectra),
        is_istft(
            spectra,
            weights,
            hop,
            signal.len() as int,
            zero_bin,
            conjugate,
            inverse,
            zero,
            plus,
            normalize,
            out,
        ),
        forall|frame: Seq<T>, half: Seq<C>, back: Seq<T>|
            frame.len() == weights.len() && #[trigger] is_half_spectrum(
                transform,
                weights.len() as int,
                frame,
                half,
            ) && #[trigger] is_inverse_of(
                half,
                weights.len() as int,
                zero_bin,
                conjugate,
                inverse,
                back,
            ) ==> is_weighted_frame(frame, weights, weigh, back),
        forall|i: int|
            0 <= i < signal.len() ==> #[trigger] settles_back(
                weights,
                spectra.len(),
                hop,
                zero,
                plus,
                normalize,
                weigh,
                close,
                weights.len() as int / 2 + i,
            ),
    ensures
        out.len() == signal.len(),
        forall|i: int| 0 <= i < signal.len() ==> close(signal[i], #[trigger] out[i]),
{
    let n_fft = weights.len() as int;
    let padded = zeros_around(signal, n_fft / 2, zero);
    let frames = frames_of(padded, n_fft, hop);
    let backs = choose|backs: Seq<Seq<T>>|
        {
            &&& backs.len() == spectra.len()
            &&& forall|k: int|
                0 <= k < backs.len() ==> is_inverse_of(
                    spectra[k],
                    n_fft,
                    zero_bin,
                    conjugate,
                    inverse,
                    #[trigger] backs[k],
                )
            &&& #[trigger] is_synthesized(
                backs,
                weights,
                hop,
                signal.len() as int,
                zero,
                plus,
                normalize,
                out,
            )
        };
    assert forall|k: int| 0 <= k < backs.len() implies is_weighted_frame(
        frames[k],
        weights,
        weigh,
        #[trigger] backs[k],
    ) by {
        lemma_frame_fits(padded.len() as int, n_fft, hop, k);
        assert(is_half_spectrum(transform, n_fft, frames[k], spectra[k]));
        assert(is_inverse_of(spectra[k], n_fft, zero_bin, conjugate, inverse, backs[k]));
    }
    law_weighted_frames_give_signal_back(
        signal,
        weights,
        hop,
        zero,
        backs,
        plus,
        normalize,
        weigh,
        close,
        out,
    );
}

/// The frames that `analysis_frames` cuts give the signal back when they are put together
/// again, where equal samples settle to the sample.
pub proof fn law_synthesis_inverts_analysis<T, A: Fn(T, T) -> T, N: Fn(T, T) -> T>(
    signal: Seq<T>,
    weights: Seq<T>,
    hop: int,
    zero: T,
    plus: A,
    normalize: N,
    out: Seq<T>,
)
    requires
        weights.len() > 0,
        0 < hop <= weights.len() / 2 + 1,
        signal.len() > 0 || weights.len() % 2 == 0,
        ({
            let n_fft = weights.len() as int;
            let frames = frames_of(zeros_around(signal, n_fft / 2, zero), n_fft, hop);
            let same = |sample: T, weight: T, term: T| term == sample;
            let equal = |sample: T, r: T| r == sample;
            &&& is_synthesized(
                frames,
                weights,
                hop,
                signal.len() as int,
                zero,
                plus,
                normalize,
                out,
            )
            &&& forall|i: int|
                0 <= i < signal.len() ==> #[trigger] settles_back(
                    weights,
                    frames.len(),
                    hop,
                    zero,
                    plus,
                    normalize,
                    same,
                    equal,
                    n_fft / 2 + i,
                )
        }),
    ensures
        out == signal,
{
    let n_fft = weights.len() as int;
    let padded = zeros_around(signal, n_fft / 2, zero);
    let frames = frames_of(padded, n_fft, hop);
    let same = |sample: T, weight: T, term: T| term == sample;
    let equal = |sample: T, r: T| r == sample;
    assert forall|k: int| 0 <= k < frames.len() implies is_weighted_frame(
        frames[k],
        weights,
        same,
        #[trigger] frames[k],
    ) by {}
    law_weighted_frames_give_signal_back(
        signal,
        weights,
        hop,
        zero,
        frames,
        plus,
        normalize,
        same,
        equal,
        out,
    );
    assert(out =~= signal);
}

/// A rebuilt spectrum of an even number of points is symmetric: the bins of negative
/// frequency are the conjugates of those of positive frequency.
pub proof fn law_full_spectrum_symmetric<C, F: Fn(C) -> C>(
    half: Seq<C>,
    n_fft: int,
    zero: C,
    conjugate: F,
    full: Seq<C>,
    k: int,
)
    requires
        n_fft % 2 == 0,
        half.len() == kept_bins(n_fft),
        is_full_spectrum(half, n_fft, zero, conjugate, full),
        1 <= k < n_fft / 2,
    ensures
        full[k] == half[k],
        conjugate.ensures((full[k],), full[n_fft - k]),
{
    let i = n_fft - k;
    assert(half.len() <= i < n_fft);
    assert(n_fft / 2 - 1 - (i - half.len()) == k);
}

/// A centred transform of an even number of points analyses one frame per hop, and one
/// more.
pub proof fn law_analysis_frame_count<T>(signal: Seq<T>, n_fft: int, hop: int, zero: T)
    requires
        n_fft >= 0,
        n_fft % 2 == 0,
        hop > 0,
    ensures
        frames_of(zeros_around(signal, n_fft / 2, zero), n_fft, hop).len() == signal.len() as int
            / hop + 1,
{
    assert(signal.len() as int / hop >= 0) by (nonlinear_arith)
        requires
            hop > 0,
            signal.len() >= 0,
    ;
}

/// As many frames are cut from a signal as lie inside it: frame `k` is there exactly where
/// its last sample is.
pub proof fn law_frames_fit(len: int, size: int, hop: int, k: int)
    requires
        hop > 0,
        0 <= size,
        0 <= len,
        0 <= k,
    ensures
        k < frame_count(len, size, hop) <==> k * hop + size <= len,
{
    if k < frame_count(len, size, hop) {
        lemma_frame_fits(len, size, hop, k);
    }
    if k * hop + size <= len {
        assert(0 <= k * hop) by (nonlinear_arith)
            requires
                0 <= k,
                hop > 0,
        ;
        lemma_fundamental_div_mod(len - size, hop);
        let last = (len - size) / hop;
        assert(k <= last) by (nonlinear_arith)
            requires
                k * hop <= len - size,
                len - size < hop * last + hop,
                hop > 0,
        ;
    }
}

/// Sample `i` of frame `k` is the sample `i` behind the place where the frame starts, which
/// is `k` times `hop`.
pub proof fn law_frame_samples<T>(signal: Seq<T>, size: int, hop: int, k: int, i: int)
    requires
        hop > 0,
        0 <= i < size,
        0 <= k,
        k * hop + size <= signal.len(),
    ensures
        k < frames_of(signal, size, hop).len(),
        frames_of(signal, size, hop)[k].len() == size,
        frames_of(signal, size, hop)[k][i] == signal[k * hop + i],
{
    law_frames_fit(signal.len() as int, size, hop, k);
    assert(0 <= k * hop) by (nonlinear_arith)
        requires
            0 <= k,
            hop > 0,
    ;
}

/// Silence around a signal leaves the signal in the middle, and silence behind it leaves it
/// at the start; everything else is silence.
pub proof fn law_silence_added<T>(signal: Seq<T>, count: int, zero: T, p: int)
    requires
        count >= 0,
    ensures
        zeros_after(signal, count, zero).len() == signal.len() + count,
        zeros_around(signal, count, zero).len() == signal.len() + 2 * count,
        0 <= p < signal.len() ==> zeros_after(signal, count, zero)[p] == signal[p],
        0 <= p < signal.len() ==> zeros_around(signal, count, zero)[count + p] == signal[p],
        signal.len() <= p < signal.len() + count ==> zeros_after(signal, count, zero)[p] == zero,
        0 <= p < count ==> zeros_around(signal, count, zero)[p] == zero,
        signal.len() + count <= p < signal.len() + 2 * count ==> zeros_around(
            signal,
            count,
            zero,
        )[p] == zero,
{
}

/// Frame `k` of `size` samples, laid `hop` apart, lies over position `p`.
pub open spec fn covers(k: int, size: int, hop: int, p: int) -> bool {
    k * hop <= p < k * hop + size
}

/// What falls on a position when frames are laid over each other is one sample of each
/// frame that lies over it, in the order of the frames: the one that stands there.
pub proof fn law_contributions<T>(
    frames: Seq<Seq<T>>,
    size: int,
    hop: int,
    p: int,
    first: int,
    count: nat,
)
    requires
        forall|k: int| 0 <= k < frames.len() ==> #[trigger] frames[k].len() == size,
        0 <= first,
        first + count <= frames.len(),
        forall|k: int|
            0 <= k < frames.len() ==> (#[trigger] covers(k, size, hop, p) <==> first <= k < first
                + count),
    ensures
        contributions(frames, hop, p) == Seq::new(
            count,
            |j: int| frames[first + j][p - (first + j) * hop],
        ),
    decreases frames.len(),
{
    let all = Seq::new(count, |j: int| frames[first + j][p - (first + j) * hop]);
    if frames.len() > 0 {
        let last = frames.len() - 1;
        let fewer = frames.drop_last();
        assert forall|k: int| 0 <= k < fewer.len() implies #[trigger] fewer[k].len() == size by {
            assert(fewer[k] == frames[k]);
        }
        assert(frames.last().len() == size);
        assert(covers(last, size, hop, p) <==> 0 <= p - last * hop < size);
        if covers(last, size, hop, p) {
            let less = (count - 1) as nat;
            law_contributions(fewer, size, hop, p, first, less);
            assert(contributions(frames, hop, p) =~= all);
        } else {
            let from = if count == 0 {
                0
            } else {
                first
            };
            law_contributions(fewer, size, hop, p, from, count);
            assert(contributions(frames, hop, p) =~= all);
        }
    } else {
        assert(contributions(frames, hop, p) =~= all);
    }
}

/// Adding one term is one addition, with the sum so far on the left; adding none changes
/// nothing.
pub proof fn law_sum_of_one<T, A: Fn(T, T) -> T>(plus: A, start: T, term: T, r: T)
    ensures
        adds_up(plus, start, Seq::empty(), r) <==> r == start,
        adds_up(plus, start, seq![term], r) <==> plus.ensures((start, term), r),
{
    let one = seq![term];
    assert(one.drop_last() =~= Seq::<T>::empty());
    assert(one.last() == term);
    if plus.ensures((start, term), r) {
        assert(adds_up(plus, start, one.drop_last(), start) && plus.ensures((start, one.last()), r));
    }
    if adds_up(plus, start, one, r) {
        let so_far = choose|so_far: T|
            #![trigger plus.ensures((so_far, one.last()), r)]
            adds_up(plus, start, one.drop_last(), so_far) && plus.ensures((so_far, one.last()), r);
        assert(so_far == start);
    }
}

/// Terms add up one after the other: a sum can be broken off anywhere and taken up again
/// where it stood.
pub proof fn law_sum_goes_on<T, A: Fn(T, T) -> T>(
    plus: A,
    start: T,
    a: Seq<T>,
    b: Seq<T>,
    middle: T,
    r: T,
)
    requires
        adds_up(plus, start, a, middle),
        adds_up(plus, middle, b, r),
    ensures
        adds_up(plus, start, a + b, r),
    decreases b.len(),
{
    if b.len() == 0 {
        assert(a + b =~= a);
    } else {
        let so_far = choose|so_far: T|
            #![trigger plus.ensures((so_far, b.last()), r)]
            adds_up(plus, middle, b.drop_last(), so_far) && plus.ensures((so_far, b.last()), r);
        law_sum_goes_on(plus, start, a, b.drop_last(), middle, so_far);
        lemma_adds_one_more(plus, start, a + b.drop_last(), so_far, b.last(), r);
        assert((a + b.drop_last()).push(b.last()) =~= a + b);
    }
}

/// A sum of two parts one after the other passes through the sum of the first.
pub proof fn law_sum_passes_through<T, A: Fn(T, T) -> T>(
    plus: A,
    start: T,
    a: Seq<T>,
    b: Seq<T>,
    r: T,
) -> (middle: T)
    requires
        adds_up(plus, start, a + b, r),
    ensures
        adds_up(plus, start, a, middle),
        adds_up(plus, middle, b, r),
    decreases b.len(),
{
    if b.len() == 0 {
        assert(a + b =~= a);
        r
    } else {
        let both = a + b;
        let so_far = choose|so_far: T|
            #![trigger plus.ensures((so_far, both.last()), r)]
            adds_up(plus, start, both.drop_last(), so_far) && plus.ensures(
                (so_far, both.last()),
                r,
            );
        assert(both.drop_last() =~= a + b.drop_last());
        assert(both.last() == b.last());
        let middle = law_sum_passes_through(plus, start, a, b.drop_last(), so_far);
        lemma_adds_one_more(plus, middle, b.drop_last(), so_far, b.last(), r);
        assert(b.drop_last().push(b.last()) =~= b);
        middle
    }
}

/// A position over which one frame lies is settled from the one sample and the one weight
/// that fall on it: the sample first, the weight second.
pub proof fn law_lone_sample_settles<T, A: Fn(T, T) -> T, N: Fn(T, T) -> T>(
    sample: T,
    weight: T,
    zero: T,
    plus: A,
    normalize: N,
    r: T,
)
    requires
        settles(seq![sample], seq![weight], zero, plus, normalize, r),
        forall|x: T, y: T| #[trigger] plus.ensures((zero, x), y) ==> y == x,
    ensures
        normalize.ensures((sample, weight), r),
{
    let (sum, norm) = choose|sum: T, norm: T|
        #![trigger normalize.ensures((sum, norm), r)]
        {
            &&& adds_up(plus, zero, seq![sample], sum)
            &&& adds_up(plus, zero, seq![weight], norm)
            &&& normalize.ensures((sum, norm), r)
        };
    law_sum_of_one(plus, zero, sample, sum);
    law_sum_of_one(plus, zero, weight, norm);
}

/// The kept half of a spectrum has the bins up to half the number of points, that one
/// counted, as the transform gave them.
pub proof fn law_half_spectrum<T, C, F: Fn(&[T]) -> Vec<C>>(
    transform: F,
    n_fft: int,
    frame: Seq<T>,
    bins: Seq<C>,
)
    requires
        n_fft > 0,
        is_half_spectrum(transform, n_fft, frame, bins),
        forall|samples: &[T], out: Vec<C>|
            samples@ == frame && #[trigger] transform.ensures((samples,), out) ==> out@.len()
                == n_fft,
    ensures
        2 * (bins.len() - 1) <= n_fft < 2 * bins.len(),
        exists|spectrum: Seq<C>| #[trigger]
            processes(transform, frame, spectrum) && spectrum.len() == n_fft && forall|i: int|
                0 <= i < bins.len() ==> #[trigger] bins[i] == spectrum[i],
{
    let spectrum = choose|spectrum: Seq<C>| #[trigger]
        processes(transform, frame, spectrum) && bins == spectrum.take(kept_bins(n_fft));
    assert(spectrum.len() == n_fft);
    assert(processes(transform, frame, spectrum));
}

/// The frames of a short-time transform are centred: sample `i` of frame `k` is the sample
/// that stands `i` less half a frame from `k` hops into the signal, and silence where the
/// signal has none. What is kept of frame `k` is the half of its spectrum.
pub proof fn law_stft_centred<T, C, F: Fn(&[T]) -> Vec<C>>(
    audio: Seq<T>,
    n_fft: int,
    hop: int,
    zero: T,
    transform: F,
    spectra: Seq<Seq<C>>,
    k: int,
)
    requires
        n_fft > 0,
        hop > 0,
        is_stft(audio, n_fft, hop, zero, transform, spectra),
        0 <= k < spectra.len(),
    ensures
        exists|frame: Seq<T>|
            {
                &&& #[trigger] is_half_spectrum(transform, n_fft, frame, spectra[k])
                &&& frame.len() == n_fft
                &&& forall|i: int|
                    0 <= i < n_fft ==> #[trigger] frame[i] == if 0 <= k * hop + i - n_fft / 2
                        < audio.len() {
                        audio[k * hop + i - n_fft / 2]
                    } else {
                        zero
                    }
            },
{
    let padded = zeros_around(audio, n_fft / 2, zero);
    let frames = frames_of(padded, n_fft, hop);
    let frame = frames[k];
    assert(padded.len() == audio.len() + 2 * (n_fft / 2));
    lemma_frame_fits(padded.len() as int, n_fft, hop, k);
    assert forall|i: int| 0 <= i < n_fft implies #[trigger] frame[i] == if 0 <= k * hop + i - n_fft
        / 2 < audio.len() {
        audio[k * hop + i - n_fft / 2]
    } else {
        zero
    } by {
        law_frame_samples(padded, n_fft, hop, k, i);
        let q = k * hop + i - n_fft / 2;
        law_silence_added(audio, n_fft / 2, zero, q);
        law_silence_added(audio, n_fft / 2, zero, q + n_fft / 2);
        if 0 <= q < audio.len() {
            assert(padded[n_fft / 2 + q] == audio[q]);
        }
    }
    assert(is_half_spectrum(transform, n_fft, frame, spectra[k]));
}

/// Synthesis drops half a frame in front and keeps what follows, as many samples as are
/// asked for or as there are.
pub proof fn law_synthesis_cut<T, A: Fn(T, T) -> T, N: Fn(T, T) -> T>(
    frames: Seq<Seq<T>>,
    weights: Seq<T>,
    hop: int,
    output_len: int,
    zero: T,
    plus: A,
    normalize: N,
    out: Seq<T>,
)
    requires
        frames.len() > 0,
        hop >= 0,
        output_len >= 0,
        is_synthesized(frames, weights, hop, output_len, zero, plus, normalize, out),
    ensures
        out.len() <= output_len,
        exists|full: Seq<T>|
            {
                &&& #[trigger] is_overlap_add(frames, weights, hop, zero, plus, normalize, full)
                &&& full.len() == (frames.len() - 1) * hop + weights.len()
                &&& out.len() == output_len || weights.len() as int / 2 + out.len() == full.len()
                &&& forall|i: int|
                    0 <= i < out.len() ==> #[trigger] out[i] == full[weights.len() as int / 2 + i]
            },
{
    let total = overlapped_len(frames.len() as int, weights.len() as int, hop);
    let start = weights.len() as int / 2;
    let end = if start + output_len <= total {
        start + output_len
    } else {
        total
    };
    assert((frames.len() - 1) * hop >= 0) by (nonlinear_arith)
        requires
            frames.len() >= 1,
            hop >= 0,
    ;
    let full = choose|full: Seq<T>| #[trigger]
        is_overlap_add(frames, weights, hop, zero, plus, normalize, full) && out
            == full.subrange(start, end);
    assert(is_overlap_add(frames, weights, hop, zero, plus, normalize, full));
}

/// A rebuilt spectrum starts with the bins that were kept. The conjugate of each bin from 1
/// up to the one before half the number of points stands behind them, the last of these
/// bins first; what is left is filled up.
pub proof fn law_full_spectrum_parts<C, F: Fn(C) -> C>(
    half: Seq<C>,
    n_fft: int,
    zero: C,
    conjugate: F,
    full: Seq<C>,
    i: int,
)
    requires
        n_fft >= 2,
        is_full_spectrum(half, n_fft, zero, conjugate, full),
    ensures
        full.len() == n_fft,
        0 <= i < n_fft && i < half.len() ==> full[i] == half[i],
        1 <= i < n_fft / 2 && half.len() + (n_fft / 2 - 1 - i) < n_fft ==> conjugate.ensures(
            (half[i],),
            full[half.len() + (n_fft / 2 - 1 - i)],
        ),
        half.len() + n_fft / 2 - 1 <= i < n_fft ==> full[i] == zero,
{
    if 1 <= i < n_fft / 2 && half.len() + (n_fft / 2 - 1 - i) < n_fft {
        let at = half.len() + (n_fft / 2 - 1 - i);
        assert(n_fft / 2 - 1 - (at - half.len()) == i);
    }
}

/// What is measured of a part is a matter of its samples: a measure that is a function of
/// the samples it is given is that function of the part.
pub proof fn law_measure_sees_the_part<S, B, F: Fn(&[S]) -> B>(
    measure: F,
    part: Seq<S>,
    r: B,
    value: spec_fn(Seq<S>) -> B,
)
    requires
        measures(measure, part, r),
        forall|samples: &[S], x: B| #[trigger]
            measure.ensures((samples,), x) ==> x == value(samples@),
    ensures
        r == value(part),
{
}

/// What becomes of a frame is a matter of its samples: a process that is a function of the
/// frame it is given makes that function of the frame.
pub proof fn law_process_sees_the_frame<T, C, P: Fn(&[T]) -> Vec<C>>(
    process: P,
    before: Seq<T>,
    after: Seq<C>,
    value: spec_fn(Seq<T>) -> Seq<C>,
)
    requires
        processes(process, before, after),
        forall|frame: &[T], out: Vec<C>| #[trigger]
            process.ensures((frame,), out) ==> out@ == value(frame@),
    ensures
        after == value(before),
{
}

/// The inverse of a half spectrum of an even number of points sees the whole spectrum: the
/// bins that are kept, and the conjugate of each inner one as far from the end as the bin
/// is from the start.
pub proof fn law_inverse_sees_full_spectrum<T, C, J: Fn(C) -> C, I: Fn(&[C]) -> Vec<T>>(
    half: Seq<C>,
    n_fft: int,
    zero_bin: C,
    conjugate: J,
    inverse: I,
    frame: Seq<T>,
)
    requires
        n_fft >= 2,
        n_fft % 2 == 0,
        2 * (half.len() - 1) == n_fft,
        is_inverse_of(half, n_fft, zero_bin, conjugate, inverse, frame),
    ensures
        exists|full: Seq<C>|
            {
                &&& #[trigger] processes(inverse, full, frame)
                &&& full.len() == n_fft
                &&& forall|i: int| 0 <= i < half.len() ==> #[trigger] full[i] == half[i]
                &&& forall|i: int|
                    1 <= i < half.len() - 1 ==> conjugate.ensures(
                        (#[trigger] half[i],),
                        full[n_fft - i],
                    )
            },
{
    let full = choose|full: Seq<C>| #[trigger]
        is_full_spectrum(half, n_fft, zero_bin, conjugate, full) && processes(inverse, full, frame);
    assert forall|i: int| 1 <= i < half.len() - 1 implies conjugate.ensures(
        (#[trigger] half[i],),
        full[n_fft - i],
    ) by {
        law_full_spectrum_symmetric(half, n_fft, zero_bin, conjugate, full, i);
    }
    assert(processes(inverse, full, frame));
}

/// Measuring frames measures each of them where it stands: frame `k` starts at `k` times
/// `hop`, and there are as many values as frames that lie inside the signal.
pub proof fn law_measured_frames<S, B, F: Fn(&[S]) -> B>(
    measure: F,
    signal: Seq<S>,
    size: int,
    hop: int,
    values: Seq<B>,
    value: spec_fn(Seq<S>) -> B,
    k: int,
)
    requires
        hop > 0,
        size >= 0,
        0 <= k,
        measures_frames(measure, signal, size, hop, values),
        forall|samples: &[S], x: B| #[trigger]
            measure.ensures((samples,), x) ==> x == value(samples@),
    ensures
        k < values.len() <==> k * hop + size <= signal.len(),
        k < values.len() ==> values[k] == value(signal.subrange(k * hop, k * hop + size)),
{
    law_frames_fit(signal.len() as int, size, hop, k);
    if k < values.len() {
        law_measure_sees_the_part(
            measure,
            signal.subrange(k * hop, k * hop + size),
            values[k],
            value,
        );
    }
}

} // verus!
