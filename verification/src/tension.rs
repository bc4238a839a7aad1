//! The frame-by-frame filter behind the tension effect: pad, analyse, process each frame,
//! and lay the frames back over each other.

use crate::frames::{
    full_spectrum, overlap_add_normalized, pad_to_hop, positive_bins, split_frames,
};
use crate::ieee::{peak, Binary32, HUNDREDTH_32};
use crate::reflect::mirror_pad;
use vstd::arithmetic::div_mod::*;
use vstd::arithmetic::power2::*;
use vstd::prelude::*;

verus! {

/// A length that has been padded to the hop.
pub open spec fn padded_len(len: int, hop: int) -> int {
    len + crate::frames::hop_padding(len, hop)
}

/// The frames of `audio` that are filtered: padded to the hop, mirrored by half a frame at
/// either end, and cut every `hop` samples.
pub open spec fn filter_frames<T>(audio: Seq<T>, n_fft: int, hop: int, zero: T) -> Seq<Seq<T>> {
    let padded = crate::frames::zeros_after(
        audio,
        crate::frames::hop_padding(audio.len() as int, hop),
        zero,
    );
    crate::frames::frames_of(crate::reflect::mirror_padded(padded, n_fft / 2), n_fft, hop)
}

/// `out` is what remains of `audio`, padded to the hop, when each of its frames is replaced
/// as `processed` says of a frame before and after, and the frames are laid over each other
/// again.
pub open spec fn is_filtered<T, A: Fn(T, T) -> T, N: Fn(T, T) -> T>(
    audio: Seq<T>,
    n_fft: int,
    hop: int,
    zero: T,
    weights: Seq<T>,
    processed: spec_fn(Seq<T>, Seq<T>) -> bool,
    plus: A,
    normalize: N,
    out: Seq<T>,
) -> bool {
    let before = filter_frames(audio, n_fft, hop, zero);
    exists|after: Seq<Seq<T>>, full: Seq<T>|
        {
            &&& after.len() == before.len()
            &&& forall|k: int|
                0 <= k < after.len() ==> processed(before[k], #[trigger] after[k])
            &&& #[trigger] crate::frames::is_overlap_add(
                after,
                weights,
                hop,
                zero,
                plus,
                normalize,
                full,
            )
            &&& out == full.subrange(n_fft / 2, n_fft / 2 + padded_len(audio.len() as int, hop))
        }
}

/// The frames of a padded signal, laid over each other, reach past its end.
pub proof fn lemma_filter_geometry(len: int, n_fft: int, hop: int)
    requires
        len > 0,
        n_fft > 0,
        hop > 0,
        n_fft % 2 == 0 || hop <= n_fft / 2 + 1,
    ensures
        ({
            let padded = padded_len(len, hop);
            let count = crate::frames::frame_count(padded + 2 * (n_fft / 2), n_fft, hop);
            &&& padded >= len
            &&& count >= 1
            &&& crate::frames::overlapped_len(count, n_fft, hop) <= padded + n_fft
            &&& n_fft / 2 + padded <= crate::frames::overlapped_len(count, n_fft, hop)
        }),
{
    let padded = padded_len(len, hop);
    crate::frames::law_hop_padding(len, hop);
    lemma_fundamental_div_mod(padded, hop);
    let m = padded / hop;
    assert(padded == m * hop) by (nonlinear_arith)
        requires
            padded == hop * m + 0,
    ;
    let count = crate::frames::frame_count(padded + 2 * (n_fft / 2), n_fft, hop);
    if n_fft % 2 == 0 {
        assert(count == m + 1);
        assert((count - 1) * hop == padded);
        assert(m >= 0) by (nonlinear_arith)
            requires
                padded == m * hop,
                padded > 0,
                hop > 0,
        ;
    } else {
        assert(m >= 1) by (nonlinear_arith)
            requires
                padded == m * hop,
                padded > 0,
                hop > 0,
        ;
        assert(padded - 1 == (m - 1) * hop + (hop - 1)) by (nonlinear_arith)
            requires
                padded == m * hop,
        ;
        lemma_fundamental_div_mod_converse(padded - 1, hop, m - 1, hop - 1);
        assert(padded + 2 * (n_fft / 2) - n_fft == padded - 1);
        assert(count == m);
        assert((count - 1) * hop == padded - hop) by (nonlinear_arith)
            requires
                padded == m * hop,
                count == m,
        ;
    }
}

/// Filter a signal frame by frame. The result has the signal's length padded to the hop.
pub fn filter_by_frames<T: Copy, P: Fn(&[T]) -> Vec<T>, A: Fn(T, T) -> T, N: Fn(T, T) -> T>(
    audio: &[T],
    hop: usize,
    zero: T,
    weights: &[T],
    process: &P,
    plus: &A,
    normalize: &N,
) -> (r: Vec<T>)
    requires
        audio@.len() > 0,
        hop > 0,
        weights@.len() > 0,
        weights@.len() % 2 == 0 || hop <= weights@.len() / 2 + 1,
        padded_len(audio@.len() as int, hop as int) + weights@.len() < usize::MAX,
        forall|frame: &[T]| frame@.len() == weights@.len() ==> #[trigger] process.requires((frame,)),
        forall|frame: &[T], out: Vec<T>|
            frame@.len() == weights@.len() && #[trigger] process.ensures((frame,), out)
                ==> out@.len() == weights@.len(),
        forall|a: T, b: T| #[trigger] plus.requires((a, b)),
        forall|a: T, b: T| #[trigger] normalize.requires((a, b)),
    ensures
        r@.len() == padded_len(audio@.len() as int, hop as int),
        is_filtered(
            audio@,
            weights@.len() as int,
            hop as int,
            zero,
            weights@,
            |before: Seq<T>, after: Seq<T>| crate::frames::processes(*process, before, after),
            *plus,
            *normalize,
            r@,
        ),
{
    let n_fft: usize = weights.len();
    let half: usize = n_fft / 2;
    proof {
        lemma_filter_geometry(audio@.len() as int, n_fft as int, hop as int);
    }
    let padded: Vec<T> = pad_to_hop(audio, hop, zero);
    let centred: Vec<T> = mirror_pad(padded.as_slice(), half);
    let before: Vec<Vec<T>> = split_frames(centred.as_slice(), n_fft, hop);
    let ghost given = filter_frames(audio@, n_fft as int, hop as int, zero);
    assert(crate::frames::contents(before@) == given);
    assert(crate::frames::contents(before@).len() == before@.len());
    let mut after: Vec<Vec<T>> = Vec::new();
    for k in 0..before.len()
        invariant
            n_fft == weights@.len(),
            crate::frames::contents(before@) == given,
            given == crate::frames::frames_of(centred@, n_fft as int, hop as int),
            before@.len() == crate::frames::frame_count(
                centred@.len() as int,
                n_fft as int,
                hop as int,
            ),
            hop > 0,
            forall|frame: &[T]|
                frame@.len() == weights@.len() ==> #[trigger] process.requires((frame,)),
            forall|frame: &[T], out: Vec<T>|
                frame@.len() == weights@.len() && #[trigger] process.ensures((frame,), out)
                    ==> out@.len() == weights@.len(),
            after@.len() == k,
            forall|j: int|
                0 <= j < k ==> (#[trigger] after@[j])@.len() == n_fft && crate::frames::processes(
                    *process,
                    given[j],
                    after@[j]@,
                ),
    {
        proof {
            crate::frames::lemma_frame_fits(
                centred@.len() as int,
                n_fft as int,
                hop as int,
                k as int,
            );
            assert(before@[k as int]@ == given[k as int]);
        }
        let frame: &[T] = before[k].as_slice();
        let out: Vec<T> = process(frame);
        assert(process.ensures((frame,), out) && frame@ == given[k as int]);
        after.push(out);
    }
    let full: Vec<T> = overlap_add_normalized(
        after.as_slice(),
        weights,
        hop,
        zero,
        plus,
        normalize,
    );
    let ghost done = crate::frames::contents(after@);
    assert forall|k: int| 0 <= k < done.len() implies crate::frames::processes(
        *process,
        given[k],
        #[trigger] done[k],
    ) by {
        assert(done[k] == after@[k]@);
    }
    vstd::slice::slice_to_vec(
        vstd::slice::slice_subrange(full.as_slice(), half, half + padded.len()),
    )
}

/// `after` is the frame `before` with its spectrum tilted: every bin of non-negative
/// frequency goes through `tilt` with its own number, and the inverse of the full spectrum
/// that these bins stand for is the frame.
pub open spec fn is_tilted<
    T,
    C,
    F: Fn(&[T]) -> Vec<C>,
    B: Fn(usize, C) -> C,
    J: Fn(C) -> C,
    I: Fn(&[C]) -> Vec<T>,
>(
    before: Seq<T>,
    n_fft: int,
    zero_bin: C,
    transform: F,
    tilt: B,
    conjugate: J,
    inverse: I,
    after: Seq<T>,
) -> bool {
    exists|spectrum: Seq<C>, half: Seq<C>|
        {
            &&& #[trigger] crate::frames::processes(transform, before, spectrum)
            &&& half.len() == crate::frames::kept_bins(n_fft)
            &&& forall|i: int|
                0 <= i < half.len() ==> tilt.ensures((i as usize, spectrum[i]), #[trigger] half[i])
            &&& #[trigger] crate::frames::is_inverse_of(
                half,
                n_fft,
                zero_bin,
                conjugate,
                inverse,
                after,
            )
        }
}

/// Tilt the spectrum of a frame.
pub fn tilt_frame<
    T,
    C: Copy,
    F: Fn(&[T]) -> Vec<C>,
    B: Fn(usize, C) -> C,
    J: Fn(C) -> C,
    I: Fn(&[C]) -> Vec<T>,
>(
    frame: &[T],
    n_fft: usize,
    zero_bin: C,
    transform: &F,
    tilt: &B,
    conjugate: &J,
    inverse: &I,
) -> (r: Vec<T>)
    requires
        n_fft > 0,
        frame@.len() == n_fft,
        forall|samples: &[T]| samples@.len() == n_fft ==> #[trigger] transform.requires((samples,)),
        forall|samples: &[T], out: Vec<C>|
            samples@.len() == n_fft && #[trigger] transform.ensures((samples,), out) ==> out@.len()
                == n_fft,
        forall|i: usize, c: C| i <= n_fft / 2 ==> #[trigger] tilt.requires((i, c)),
        forall|c: C| #[trigger] conjugate.requires((c,)),
        forall|full: &[C]| full@.len() == n_fft ==> #[trigger] inverse.requires((full,)),
        forall|full: &[C], out: Vec<T>|
            full@.len() == n_fft && #[trigger] inverse.ensures((full,), out) ==> out@.len()
                == n_fft,
    ensures
        r@.len() == n_fft,
        is_tilted(
            frame@,
            n_fft as int,
            zero_bin,
            *transform,
            *tilt,
            *conjugate,
            *inverse,
            r@,
        ),
{
    let spectrum: Vec<C> = transform(frame);
    assert(transform.ensures((frame,), spectrum));
    assert(crate::frames::processes(*transform, frame@, spectrum@));
    let bins: Vec<C> = positive_bins(spectrum.as_slice(), n_fft);
    let mut half: Vec<C> = Vec::new();
    for i in 0..bins.len()
        invariant
            bins@ == spectrum@.take(crate::frames::kept_bins(n_fft as int)),
            bins@.len() == n_fft / 2 + 1,
            spectrum@.len() == n_fft,
            n_fft > 0,
            forall|k: usize, c: C| k <= n_fft / 2 ==> #[trigger] tilt.requires((k, c)),
            half@.len() == i,
            forall|k: int|
                0 <= k < i ==> tilt.ensures((k as usize, spectrum@[k]), #[trigger] half@[k]),
    {
        half.push(tilt(i, bins[i]));
    }
    let full: Vec<C> = full_spectrum(half.as_slice(), n_fft, zero_bin, conjugate);
    let points: &[C] = full.as_slice();
    let after: Vec<T> = inverse(points);
    assert(inverse.ensures((points,), after) && points@ == full@);
    assert(crate::frames::processes(*inverse, full@, after@));
    assert(crate::frames::is_inverse_of(
        half@,
        n_fft as int,
        zero_bin,
        *conjugate,
        *inverse,
        after@,
    ));
    after
}

/// `out` is `audio` with the spectra of its frames tilted, and corrected: each sample by
/// `correct`, which knows the peaks before and after the filter.
pub open spec fn is_tensioned<
    K,
    F: Fn(&[Binary32]) -> Vec<K>,
    B: Fn(usize, K) -> K,
    J: Fn(K) -> K,
    I: Fn(&[K]) -> Vec<Binary32>,
    A: Fn(Binary32, Binary32) -> Binary32,
    N: Fn(Binary32, Binary32) -> Binary32,
    C: Fn(Binary32, Binary32, Binary32) -> Binary32,
>(
    audio: Seq<Binary32>,
    hop: int,
    weights: Seq<Binary32>,
    zero_bin: K,
    transform: F,
    tilt: B,
    conjugate: J,
    inverse: I,
    plus: A,
    normalize: N,
    correct: C,
    out: Seq<Binary32>,
) -> bool {
    exists|filtered: Seq<Binary32>, before: Binary32, after: Binary32|
        {
            &&& is_filtered(
                audio,
                weights.len() as int,
                hop,
                Binary32 { bits: 0 },
                weights,
                |x: Seq<Binary32>, y: Seq<Binary32>|
                    is_tilted(
                        x,
                        weights.len() as int,
                        zero_bin,
                        transform,
                        tilt,
                        conjugate,
                        inverse,
                        y,
                    ),
                plus,
                normalize,
                filtered,
            )
            &&& #[trigger] crate::ieee::is_peak(audio, before)
            &&& #[trigger] crate::ieee::is_peak(filtered, after)
            &&& out.len() == audio.len()
            &&& forall|i: int|
                0 <= i < out.len() ==> correct.ensures(
                    (filtered[i], before, after),
                    #[trigger] out[i],
                )
        }
}

/// Tension that is too weak to be applied: less than 0.01 either way.
pub open spec fn is_weak_tension(b: Binary32) -> bool {
    b.spec_magnitude() < HUNDREDTH_32
}

/// Tension that is too weak to be applied: less than 0.01 either way.
pub fn tension_is_weak(b: Binary32) -> (r: bool)
    ensures
        r == is_weak_tension(b),
{
    b.magnitude() < HUNDREDTH_32
}

/// The tension filter: where the tension `b` is weak the signal stays as it is; otherwise
/// the spectrum of each frame is tilted, and the samples are corrected by what that did to
/// the peak. The number of points of a frame is that of `weights`.
pub fn pre_emphasis_tension<
    K: Copy,
    F: Fn(&[Binary32]) -> Vec<K>,
    B: Fn(usize, K) -> K,
    J: Fn(K) -> K,
    I: Fn(&[K]) -> Vec<Binary32>,
    A: Fn(Binary32, Binary32) -> Binary32,
    N: Fn(Binary32, Binary32) -> Binary32,
    C: Fn(Binary32, Binary32, Binary32) -> Binary32,
>(
    audio: &[Binary32],
    b: Binary32,
    hop: usize,
    weights: &[Binary32],
    zero_bin: K,
    transform: &F,
    tilt: &B,
    conjugate: &J,
    inverse: &I,
    plus: &A,
    normalize: &N,
    correct: &C,
) -> (r: Vec<Binary32>)
    requires
        !is_weak_tension(b) ==> {
            &&& audio@.len() > 0
            &&& hop > 0
            &&& weights@.len() > 0
            &&& weights@.len() % 2 == 0 || hop <= weights@.len() / 2 + 1
            &&& padded_len(audio@.len() as int, hop as int) + weights@.len() < usize::MAX
        },
        forall|frame: &[Binary32]|
            frame@.len() == weights@.len() ==> #[trigger] transform.requires((frame,)),
        forall|frame: &[Binary32], out: Vec<K>|
            frame@.len() == weights@.len() && #[trigger] transform.ensures((frame,), out)
                ==> out@.len() == weights@.len(),
        forall|i: usize, c: K| i <= weights@.len() / 2 ==> #[trigger] tilt.requires((i, c)),
        forall|c: K| #[trigger] conjugate.requires((c,)),
        forall|full: &[K]| full@.len() == weights@.len() ==> #[trigger] inverse.requires((full,)),
        forall|full: &[K], out: Vec<Binary32>|
            full@.len() == weights@.len() && #[trigger] inverse.ensures((full,), out)
                ==> out@.len() == weights@.len(),
        forall|x: Binary32, y: Binary32| #[trigger] plus.requires((x, y)),
        forall|x: Binary32, y: Binary32| #[trigger] normalize.requires((x, y)),
        forall|x: Binary32, y: Binary32, z: Binary32| #[trigger] correct.requires((x, y, z)),
    ensures
        is_weak_tension(b) ==> r@ == audio@,
        !is_weak_tension(b) ==> is_tensioned(
            audio@,
            hop as int,
            weights@,
            zero_bin,
            *transform,
            *tilt,
            *conjugate,
            *inverse,
            *plus,
            *normalize,
            *correct,
            r@,
        ),
{
    if tension_is_weak(b) {
        return vstd::slice::slice_to_vec(audio);
    }
    let n_fft: usize = weights.len();
    proof {
        lemma_filter_geometry(audio@.len() as int, n_fft as int, hop as int);
    }
    let zero = Binary32 { bits: 0 };
    let process = |frame: &[Binary32]| -> (out: Vec<Binary32>)
        requires
            frame@.len() == n_fft,
        ensures
            out@.len() == n_fft,
            is_tilted(
                frame@,
                n_fft as int,
                zero_bin,
                *transform,
                *tilt,
                *conjugate,
                *inverse,
                out@,
            ),
        { tilt_frame(frame, n_fft, zero_bin, transform, tilt, conjugate, inverse) };
    let filtered: Vec<Binary32> = filter_by_frames(
        audio,
        hop,
        zero,
        weights,
        &process,
        plus,
        normalize,
    );
    proof {
        let tilted = |x: Seq<Binary32>, y: Seq<Binary32>|
            is_tilted(
                x,
                weights@.len() as int,
                zero_bin,
                *transform,
                *tilt,
                *conjugate,
                *inverse,
                y,
            );
        let processed = |x: Seq<Binary32>, y: Seq<Binary32>|
            crate::frames::processes(process, x, y);
        assert forall|x: Seq<Binary32>, y: Seq<Binary32>|
            #[trigger] processed(x, y) implies tilted(x, y) by {
            let (frame, out) = choose|frame: &[Binary32], out: Vec<Binary32>| #[trigger]
                process.ensures((frame,), out) && frame@ == x && out@ == y;
            assert(process.ensures((frame,), out));
        }
        lemma_filtered_otherwise(
            audio@,
            n_fft as int,
            hop as int,
            zero,
            weights@,
            processed,
            tilted,
            *plus,
            *normalize,
            filtered@,
        );
    }
    let before: Binary32 = peak(audio);
    let after: Binary32 = peak(filtered.as_slice());
    let mut out: Vec<Binary32> = Vec::new();
    for i in 0..audio.len()
        invariant
            audio@.len() <= filtered@.len(),
            forall|x: Binary32, y: Binary32, z: Binary32| #[trigger] correct.requires((x, y, z)),
            out@.len() == i,
            forall|k: int|
                0 <= k < i ==> correct.ensures((filtered@[k], before, after), #[trigger] out@[k]),
    {
        out.push(correct(filtered[i], before, after));
    }
    assert(crate::ieee::is_peak(audio@, before) && crate::ieee::is_peak(filtered@, after));
    out
}

proof fn lemma_filtered_otherwise<T, A: Fn(T, T) -> T, N: Fn(T, T) -> T>(
    audio: Seq<T>,
    n_fft: int,
    hop: int,
    zero: T,
    weights: Seq<T>,
    processed: spec_fn(Seq<T>, Seq<T>) -> bool,
    otherwise: spec_fn(Seq<T>, Seq<T>) -> bool,
    plus: A,
    normalize: N,
    out: Seq<T>,
)
    requires
        is_filtered(audio, n_fft, hop, zero, weights, processed, plus, normalize, out),
        forall|x: Seq<T>, y: Seq<T>| #[trigger] processed(x, y) ==> otherwise(x, y),
    ensures
        is_filtered(audio, n_fft, hop, zero, weights, otherwise, plus, normalize, out),
{
    let before = filter_frames(audio, n_fft, hop, zero);
    let (after, full) = choose|after: Seq<Seq<T>>, full: Seq<T>|
        {
            &&& after.len() == before.len()
            &&& forall|k: int| 0 <= k < after.len() ==> processed(before[k], #[trigger] after[k])
            &&& #[trigger] crate::frames::is_overlap_add(
                after,
                weights,
                hop,
                zero,
                plus,
                normalize,
                full,
            )
            &&& out == full.subrange(n_fft / 2, n_fft / 2 + padded_len(audio.len() as int, hop))
        };
    assert forall|k: int| 0 <= k < after.len() implies otherwise(before[k], #[trigger] after[k]) by {
        assert(processed(before[k], after[k]));
    }
    assert(crate::frames::is_overlap_add(after, weights, hop, zero, plus, normalize, full));
}

// ── Laws ──────────────────────────────────────────────────────────────

/// The frames that are filtered are centred: sample `i` of frame `k` is the sample that
/// stands `i` less half a frame from `k` hops into the signal, silence between its end and
/// the next multiple of the hop, and mirrored where it would lie before the start.
pub proof fn law_filter_frames_centred<T>(
    audio: Seq<T>,
    n_fft: int,
    hop: int,
    zero: T,
    k: int,
    i: int,
)
    requires
        audio.len() > 0,
        n_fft > 0,
        hop > 0,
        0 <= k < filter_frames(audio, n_fft, hop, zero).len(),
        0 <= i < n_fft,
    ensures
        ({
            let frame = filter_frames(audio, n_fft, hop, zero)[k];
            let q = k * hop + i - n_fft / 2;
            &&& frame.len() == n_fft
            &&& 0 <= q < audio.len() ==> frame[i] == audio[q]
            &&& audio.len() <= q < padded_len(audio.len() as int, hop) ==> frame[i] == zero
            &&& -(audio.len() as int) < q < 0 ==> frame[i] == audio[-q]
        }),
{
    let len = audio.len() as int;
    let padding = crate::frames::hop_padding(len, hop);
    let padded = crate::frames::zeros_after(audio, padding, zero);
    let mirrored = crate::reflect::mirror_padded(padded, n_fft / 2);
    crate::frames::law_hop_padding(len, hop);
    crate::frames::law_silence_added(audio, padding, zero, k * hop + i - n_fft / 2);
    crate::frames::law_silence_added(audio, padding, zero, -(k * hop + i - n_fft / 2));
    crate::frames::lemma_frame_fits(mirrored.len() as int, n_fft, hop, k);
    crate::frames::law_frame_samples(mirrored, n_fft, hop, k, i);
}

/// Filtering whose frames come back weighted sample by sample gives the signal back, each
/// sample as close to itself as a sample settles that was given the weights that fell on
/// it; and behind the signal what silence settles to, up to the next multiple of the hop.
pub proof fn law_filter_gives_signal_back<T, A: Fn(T, T) -> T, N: Fn(T, T) -> T>(
    audio: Seq<T>,
    hop: int,
    zero: T,
    weights: Seq<T>,
    processed: spec_fn(Seq<T>, Seq<T>) -> bool,
    plus: A,
    normalize: N,
    weigh: spec_fn(T, T, T) -> bool,
    close: spec_fn(T, T) -> bool,
    out: Seq<T>,
)
    requires
        audio.len() > 0,
        weights.len() > 0,
        0 < hop <= weights.len() / 2 + 1,
        is_filtered(
            audio,
            weights.len() as int,
            hop,
            zero,
            weights,
            processed,
            plus,
            normalize,
            out,
        ),
        forall|x: Seq<T>, y: Seq<T>|
            x.len() == weights.len() && #[trigger] processed(x, y)
                ==> crate::frames::is_weighted_frame(x, weights, weigh, y),
        forall|p: int|
            0 <= p < padded_len(audio.len() as int, hop) ==> #[trigger] crate::frames::settles_back(
                weights,
                filter_frames(audio, weights.len() as int, hop, zero).len(),
                hop,
                zero,
                plus,
                normalize,
                weigh,
                close,
                weights.len() as int / 2 + p,
            ),
    ensures
        out.len() == padded_len(audio.len() as int, hop),
        forall|i: int| 0 <= i < audio.len() ==> close(audio[i], #[trigger] out[i]),
        forall|i: int| audio.len() <= i < out.len() ==> close(zero, #[trigger] out[i]),
{
    let n_fft = weights.len() as int;
    let half = n_fft / 2;
    let len = audio.len() as int;
    let padding = crate::frames::hop_padding(len, hop);
    crate::frames::law_hop_padding(len, hop);
    let padded = crate::frames::zeros_after(audio, padding, zero);
    let mirrored = crate::reflect::mirror_padded(padded, half);
    let frames = filter_frames(audio, n_fft, hop, zero);
    lemma_filter_geometry(len, n_fft, hop);
    let (backs, full) = choose|backs: Seq<Seq<T>>, full: Seq<T>|
        {
            &&& backs.len() == frames.len()
            &&& forall|k: int| 0 <= k < backs.len() ==> processed(frames[k], #[trigger] backs[k])
            &&& #[trigger] crate::frames::is_overlap_add(
                backs,
                weights,
                hop,
                zero,
                plus,
                normalize,
                full,
            )
            &&& out == full.subrange(half, half + padded_len(len, hop))
        };
    assert forall|k: int| 0 <= k < backs.len() implies {
        &&& #[trigger] backs[k].len() == n_fft
        &&& crate::frames::is_weighted_frame(frames[k], weights, weigh, backs[k])
    } by {
        crate::frames::lemma_frame_fits(mirrored.len() as int, n_fft, hop, k);
        assert(frames[k].len() == n_fft);
        assert(processed(frames[k], backs[k]));
    }
    let windows = Seq::new(backs.len(), |k: int| weights);
    assert forall|i: int| 0 <= i < padded.len() implies close(padded[i], #[trigger] out[i]) by {
        let p = half + i;
        assert(crate::frames::settles_back(
            weights,
            backs.len(),
            hop,
            zero,
            plus,
            normalize,
            weigh,
            close,
            p,
        ));
        assert(mirrored[p] == padded[i]);
        crate::frames::lemma_weighted_contributions(
            mirrored,
            weights,
            hop,
            backs,
            weigh,
            backs.len() as int,
            p,
        );
        assert(backs.take(backs.len() as int) =~= backs);
        crate::frames::law_overlap_covers(backs, n_fft, hop, p);
        assert(crate::frames::settles(
            crate::frames::contributions(backs, hop, p),
            crate::frames::contributions(windows, hop, p),
            zero,
            plus,
            normalize,
            full[p],
        ));
        assert(crate::frames::are_weighted(
            padded[i],
            crate::frames::contributions(windows, hop, p),
            weigh,
            crate::frames::contributions(backs, hop, p),
        ));
    }
    assert forall|i: int| 0 <= i < audio.len() implies close(audio[i], #[trigger] out[i]) by {
        assert(padded[i] == audio[i]);
    }
    assert forall|i: int| audio.len() <= i < out.len() implies close(zero, #[trigger] out[i]) by {
        assert(padded[i] == zero);
    }
}

/// Tilting touches every bin that is kept, and each with its own number: a tilt that
/// depends on the number alone leaves nothing of the frame, and one that changes no bin
/// leaves the half of its spectrum.
pub proof fn law_tilt_takes_each_bin<
    T,
    C,
    F: Fn(&[T]) -> Vec<C>,
    B: Fn(usize, C) -> C,
    J: Fn(C) -> C,
    I: Fn(&[C]) -> Vec<T>,
>(
    before: Seq<T>,
    n_fft: int,
    zero_bin: C,
    transform: F,
    tilt: B,
    conjugate: J,
    inverse: I,
    after: Seq<T>,
    by_number: spec_fn(usize) -> C,
)
    requires
        n_fft > 0,
        is_tilted(before, n_fft, zero_bin, transform, tilt, conjugate, inverse, after),
        forall|samples: &[T], out: Vec<C>|
            samples@ == before && #[trigger] transform.ensures((samples,), out) ==> out@.len()
                == n_fft,
    ensures
        (forall|i: usize, c: C, d: C| #[trigger] tilt.ensures((i, c), d) ==> d == by_number(i))
            ==> crate::frames::is_inverse_of(
            Seq::new((n_fft / 2 + 1) as nat, |i: int| by_number(i as usize)),
            n_fft,
            zero_bin,
            conjugate,
            inverse,
            after,
        ),
        (forall|i: usize, c: C, d: C| #[trigger] tilt.ensures((i, c), d) ==> d == c)
            ==> exists|half: Seq<C>| #[trigger]
            crate::frames::is_half_spectrum(transform, n_fft, before, half)
                && crate::frames::is_inverse_of(
                half,
                n_fft,
                zero_bin,
                conjugate,
                inverse,
                after,
            ),
{
    let (spectrum, half) = choose|spectrum: Seq<C>, half: Seq<C>|
        {
            &&& #[trigger] crate::frames::processes(transform, before, spectrum)
            &&& half.len() == crate::frames::kept_bins(n_fft)
            &&& forall|i: int|
                0 <= i < half.len() ==> tilt.ensures((i as usize, spectrum[i]), #[trigger] half[i])
            &&& #[trigger] crate::frames::is_inverse_of(
                half,
                n_fft,
                zero_bin,
                conjugate,
                inverse,
                after,
            )
        };
    if forall|i: usize, c: C, d: C| #[trigger] tilt.ensures((i, c), d) ==> d == by_number(i) {
        assert(half =~= Seq::new((n_fft / 2 + 1) as nat, |i: int| by_number(i as usize)));
    }
    if forall|i: usize, c: C, d: C| #[trigger] tilt.ensures((i, c), d) ==> d == c {
        assert(spectrum.len() == n_fft);
        assert(half =~= spectrum.take(crate::frames::kept_bins(n_fft)));
        assert(crate::frames::is_half_spectrum(transform, n_fft, before, half));
    }
}

/// Tension that changes nothing gives the signal back: where the tilt leaves every bin and
/// the correction every sample, the inverse of the transform of a frame is the frame,
/// weighted sample by sample, and a sample settles close to itself.
pub proof fn law_neutral_tension_gives_signal_back<
    K,
    F: Fn(&[Binary32]) -> Vec<K>,
    B: Fn(usize, K) -> K,
    J: Fn(K) -> K,
    I: Fn(&[K]) -> Vec<Binary32>,
    A: Fn(Binary32, Binary32) -> Binary32,
    N: Fn(Binary32, Binary32) -> Binary32,
    C: Fn(Binary32, Binary32, Binary32) -> Binary32,
>(
    audio: Seq<Binary32>,
    hop: int,
    weights: Seq<Binary32>,
    zero_bin: K,
    transform: F,
    tilt: B,
    conjugate: J,
    inverse: I,
    plus: A,
    normalize: N,
    correct: C,
    weigh: spec_fn(Binary32, Binary32, Binary32) -> bool,
    close: spec_fn(Binary32, Binary32) -> bool,
    out: Seq<Binary32>,
)
    requires
        audio.len() > 0,
        weights.len() > 0,
        0 < hop <= weights.len() / 2 + 1,
        is_tensioned(
            audio,
            hop,
            weights,
            zero_bin,
            transform,
            tilt,
            conjugate,
            inverse,
            plus,
            normalize,
            correct,
            out,
        ),
        forall|frame: &[Binary32], spectrum: Vec<K>|
            frame@.len() == weights.len() && #[trigger] transform.ensures((frame,), spectrum)
                ==> spectrum@.len() == weights.len(),
        forall|i: usize, c: K, d: K| #[trigger] tilt.ensures((i, c), d) ==> d == c,
        forall|frame: Seq<Binary32>, half: Seq<K>, back: Seq<Binary32>|
            frame.len() == weights.len() && #[trigger] crate::frames::is_half_spectrum(
                transform,
                weights.len() as int,
                frame,
                half,
            ) && #[trigger] crate::frames::is_inverse_of(
                half,
                weights.len() as int,
                zero_bin,
                conjugate,
                inverse,
                back,
            ) ==> crate::frames::is_weighted_frame(frame, weights, weigh, back),
        forall|x: Binary32, b: Binary32, a: Binary32, y: Binary32| #[trigger]
            correct.ensures((x, b, a), y) ==> y == x,
        forall|p: int|
            0 <= p < padded_len(audio.len() as int, hop) ==> #[trigger] crate::frames::settles_back(
                weights,
                filter_frames(
                    audio,
                    weights.len() as int,
                    hop,
                    Binary32 { bits: 0 },
                ).len(),
                hop,
                Binary32 { bits: 0 },
                plus,
                normalize,
                weigh,
                close,
                weights.len() as int / 2 + p,
            ),
    ensures
        out.len() == audio.len(),
        forall|i: int| 0 <= i < audio.len() ==> close(audio[i], #[trigger] out[i]),
{
    let n_fft = weights.len() as int;
    let zero = Binary32 { bits: 0 };
    let tilted = |x: Seq<Binary32>, y: Seq<Binary32>|
        is_tilted(x, weights.len() as int, zero_bin, transform, tilt, conjugate, inverse, y);
    let (filtered, before, after) = choose|
        filtered: Seq<Binary32>,
        before: Binary32,
        after: Binary32,
    |
        {
            &&& is_filtered(
                audio,
                n_fft,
                hop,
                zero,
                weights,
                tilted,
                plus,
                normalize,
                filtered,
            )
            &&& #[trigger] crate::ieee::is_peak(audio, before)
            &&& #[trigger] crate::ieee::is_peak(filtered, after)
            &&& out.len() == audio.len()
            &&& forall|i: int|
                0 <= i < out.len() ==> correct.ensures(
                    (filtered[i], before, after),
                    #[trigger] out[i],
                )
        };
    assert forall|x: Seq<Binary32>, y: Seq<Binary32>|
        x.len() == weights.len() && #[trigger] tilted(
            x,
            y,
        ) implies crate::frames::is_weighted_frame(x, weights, weigh, y) by {
        law_tilt_takes_each_bin(
            x,
            n_fft,
            zero_bin,
            transform,
            tilt,
            conjugate,
            inverse,
            y,
            |i: usize| zero_bin,
        );
        let half = choose|half: Seq<K>| #[trigger]
            crate::frames::is_half_spectrum(transform, n_fft, x, half)
                && crate::frames::is_inverse_of(half, n_fft, zero_bin, conjugate, inverse, y);
        assert(crate::frames::is_half_spectrum(transform, n_fft, x, half));
    }
    law_filter_gives_signal_back(
        audio,
        hop,
        zero,
        weights,
        tilted,
        plus,
        normalize,
        weigh,
        close,
        filtered,
    );
    assert forall|i: int| 0 <= i < audio.len() implies close(audio[i], #[trigger] out[i]) by {
        assert(correct.ensures((filtered[i], before, after), out[i]));
        assert(close(audio[i], filtered[i]));
    }
}

/// The correction is told the peak of the signal first and that of the filtered signal
/// second: one that answers with the first gives the peak of the signal for every sample.
pub proof fn law_correction_knows_peaks<
    K,
    F: Fn(&[Binary32]) -> Vec<K>,
    B: Fn(usize, K) -> K,
    J: Fn(K) -> K,
    I: Fn(&[K]) -> Vec<Binary32>,
    A: Fn(Binary32, Binary32) -> Binary32,
    N: Fn(Binary32, Binary32) -> Binary32,
    C: Fn(Binary32, Binary32, Binary32) -> Binary32,
>(
    audio: Seq<Binary32>,
    hop: int,
    weights: Seq<Binary32>,
    zero_bin: K,
    transform: F,
    tilt: B,
    conjugate: J,
    inverse: I,
    plus: A,
    normalize: N,
    correct: C,
    out: Seq<Binary32>,
)
    requires
        is_tensioned(
            audio,
            hop,
            weights,
            zero_bin,
            transform,
            tilt,
            conjugate,
            inverse,
            plus,
            normalize,
            correct,
            out,
        ),
    ensures
        out.len() == audio.len(),
        (forall|x: Binary32, b: Binary32, a: Binary32, y: Binary32| #[trigger]
            correct.ensures((x, b, a), y) ==> y == b) ==> forall|i: int|
            0 <= i < out.len() ==> crate::ieee::is_peak(audio, #[trigger] out[i]),
        (forall|x: Binary32, b: Binary32, a: Binary32, y: Binary32| #[trigger]
            correct.ensures((x, b, a), y) ==> y == a) ==> exists|
            filtered: Seq<Binary32>,
            top: Binary32,
        |
            {
                &&& is_filtered(
                    audio,
                    weights.len() as int,
                    hop,
                    Binary32 { bits: 0 },
                    weights,
                    |x: Seq<Binary32>, y: Seq<Binary32>|
                        is_tilted(
                            x,
                            weights.len() as int,
                            zero_bin,
                            transform,
                            tilt,
                            conjugate,
                            inverse,
                            y,
                        ),
                    plus,
                    normalize,
                    filtered,
                )
                &&& #[trigger] crate::ieee::is_peak(filtered, top)
                &&& forall|i: int| 0 <= i < out.len() ==> #[trigger] out[i] == top
            },
{
    let tilted = |x: Seq<Binary32>, y: Seq<Binary32>|
        is_tilted(x, weights.len() as int, zero_bin, transform, tilt, conjugate, inverse, y);
    let (filtered, before, after) = choose|
        filtered: Seq<Binary32>,
        before: Binary32,
        after: Binary32,
    |
        {
            &&& is_filtered(
                audio,
                weights.len() as int,
                hop,
                Binary32 { bits: 0 },
                weights,
                tilted,
                plus,
                normalize,
                filtered,
            )
            &&& #[trigger] crate::ieee::is_peak(audio, before)
            &&& #[trigger] crate::ieee::is_peak(filtered, after)
            &&& out.len() == audio.len()
            &&& forall|i: int|
                0 <= i < out.len() ==> correct.ensures(
                    (filtered[i], before, after),
                    #[trigger] out[i],
                )
        };
    assert(crate::ieee::is_peak(filtered, after));
}

/// Tension is weak exactly where it is less than the float nearest to 0.01, either way:
/// `hundredth`, which is no further from it than half the distance between floats there.
/// What is no number is not weak.
pub proof fn law_weak_tension(b: Binary32, hundredth: Binary32)
    requires
        hundredth.units() > 0,
        -(100 * pow2(119)) <= 2 * (100 * hundredth.units() - pow2(149)) <= 100 * pow2(119),
    ensures
        is_weak_tension(b) <==> !b.spec_is_nan() && -hundredth.units() < b.units()
            < hundredth.units(),
{
    crate::ieee::lemma_hundredth_32(hundredth);
    let magnitude = b.spec_magnitude() as nat;
    if magnitude < HUNDREDTH_32 {
        crate::ieee::lemma_magnitude_units_increase(magnitude, HUNDREDTH_32 as nat, 23);
    }
    if magnitude > HUNDREDTH_32 {
        crate::ieee::lemma_magnitude_units_increase(HUNDREDTH_32 as nat, magnitude, 23);
    }
}

} // verus!
