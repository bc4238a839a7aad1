//! Reflection of indices at the ends of a signal, and the paddings built on it.

use vstd::arithmetic::div_mod::*;
use vstd::prelude::*;

verus! {

/// The index in `0..len` on which index `i` comes to lie when the indices are folded back
/// and forth between the two ends.
pub open spec fn reflected(i: int, len: int) -> int {
    let period = 2 * (len - 1);
    if len <= 1 {
        0
    } else if i % period < len {
        i % period
    } else {
        period - i % period
    }
}

/// Reflect an index for padding a signal of `len` samples.
pub fn reflect_index(i: usize, len: usize) -> (r: usize)
    requires
        2 * (len - 1) <= usize::MAX,
    ensures
        r == reflected(i as int, len as int),
        len > 0 ==> r < len,
{
    if len <= 1 {
        return 0;
    }
    let period: usize = 2 * (len - 1);
    let folded: usize = i % period;
    if folded < len {
        folded
    } else {
        period - folded
    }
}

/// Reflect a frame index for padding the loop of a mel spectrogram.
pub fn reflect_index_mel(idx: usize, len: usize) -> (r: usize)
    requires
        2 * (len - 1) <= usize::MAX,
    ensures
        r == reflected(idx as int, len as int),
        len > 0 ==> r < len,
{
    if len <= 1 {
        return 0;
    }
    let period: usize = 2 * (len - 1);
    let folded: usize = idx % period;
    if folded < len {
        folded
    } else {
        period - folded
    }
}

/// `signal` carried on to at least `len` samples: what is added runs through the signal from
/// its start, back and forth.
pub open spec fn reflect_extended<T>(signal: Seq<T>, len: int) -> Seq<T> {
    if len <= signal.len() {
        signal
    } else {
        signal + Seq::new(
            (len - signal.len()) as nat,
            |i: int| signal[reflected(i, signal.len() as int)],
        )
    }
}

/// Carry a signal on to at least `len` samples: what is added runs through the signal from
/// its start, back and forth.
pub fn reflect_extend<T: Copy>(signal: &[T], len: usize) -> (r: Vec<T>)
    requires
        signal@.len() > 0 || len == 0,
        2 * (signal@.len() - 1) <= usize::MAX,
    ensures
        r@ == reflect_extended(signal@, len as int),
{
    let mut out: Vec<T> = vstd::slice::slice_to_vec(signal);
    let have: usize = signal.len();
    if have < len {
        let missing: usize = len - have;
        for i in 0..missing
            invariant
                have == signal@.len(),
                have > 0,
                2 * (have - 1) <= usize::MAX,
                out@ == signal@ + Seq::new(i as nat, |k: int| signal@[reflected(k, have as int)]),
        {
            let source: usize = reflect_index(i, have);
            out.push(signal[source]);
        }
    }
    out
}

/// The sample that stands at signed position `q` of a signal of `len` samples padded at
/// both ends: mirrored at the near end, and held at the far one.
pub open spec fn mirror_source(q: int, len: int) -> int {
    if q < 0 {
        if -q < len {
            -q
        } else {
            len - 1
        }
    } else if q < len {
        q
    } else if 2 * (len - 1) - q > 0 {
        2 * (len - 1) - q
    } else {
        0
    }
}

/// `signal` with `pad` mirrored samples before and after it.
pub open spec fn mirror_padded<T>(signal: Seq<T>, pad: int) -> Seq<T> {
    Seq::new(
        (signal.len() + 2 * pad) as nat,
        |p: int| signal[mirror_source(p - pad, signal.len() as int)],
    )
}

/// Put `pad` mirrored samples before and after a signal.
pub fn mirror_pad<T: Copy>(signal: &[T], pad: usize) -> (r: Vec<T>)
    requires
        signal@.len() > 0 || pad == 0,
        signal@.len() + 2 * pad <= usize::MAX,
    ensures
        r@ == mirror_padded(signal@, pad as int),
{
    let len: usize = signal.len();
    let mut out: Vec<T> = Vec::with_capacity(len + 2 * pad);
    let ghost full = mirror_padded(signal@, pad as int);
    for done in 0..pad
        invariant
            len == signal@.len(),
            len > 0 || pad == 0,
            len + 2 * pad <= usize::MAX,
            full == mirror_padded(signal@, pad as int),
            out@ == full.take(done as int),
    {
        let i: usize = pad - done;
        let source: usize = if i < len {
            i
        } else {
            len - 1
        };
        out.push(signal[source]);
        assert(out@ =~= full.take(done + 1));
    }
    for i in 0..len
        invariant
            len == signal@.len(),
            len + 2 * pad <= usize::MAX,
            full == mirror_padded(signal@, pad as int),
            out@ == full.take(pad + i),
    {
        out.push(signal[i]);
        assert(out@ =~= full.take(pad + i + 1));
    }
    for done in 0..pad
        invariant
            len == signal@.len(),
            len > 0 || pad == 0,
            len + 2 * pad <= usize::MAX,
            full == mirror_padded(signal@, pad as int),
            out@ == full.take(pad + len + done),
    {
        let i: usize = done + 1;
        let source: usize = if len > i {
            len - 1 - i
        } else {
            0
        };
        out.push(signal[source]);
        assert(out@ =~= full.take(pad + len + done + 1));
    }
    assert(out@ =~= full);
    out
}

// ── Laws ──────────────────────────────────────────────────────────────

/// An index inside the signal is its own reflection.
pub proof fn law_reflected_inside(i: int, len: int)
    requires
        0 <= i < len,
    ensures
        reflected(i, len) == i,
{
    if len > 1 {
        lemma_small_mod(i as nat, (2 * (len - 1)) as nat);
    }
}

/// Reflection repeats after a way there and back.
pub proof fn law_reflected_periodic(i: int, len: int)
    requires
        len > 1,
    ensures
        reflected(i + 2 * (len - 1), len) == reflected(i, len),
{
    lemma_mod_add_multiples_vanish(i, 2 * (len - 1));
}

/// Reflection is symmetric about either end.
pub proof fn law_reflected_symmetric(i: int, len: int)
    requires
        len > 1,
    ensures
        reflected(-i, len) == reflected(i, len),
        reflected(2 * (len - 1) - i, len) == reflected(i, len),
{
    let period = 2 * (len - 1);
    let k = i % period;
    lemma_fundamental_div_mod(i, period);
    let q = i / period;
    if k == 0 {
        assert(-i == (-q) * period + 0) by (nonlinear_arith)
            requires
                i == period * q + 0,
        ;
        lemma_fundamental_div_mod_converse(-i, period, -q, 0);
    } else {
        assert(-i == (-q - 1) * period + (period - k)) by (nonlinear_arith)
            requires
                i == period * q + k,
        ;
        lemma_fundamental_div_mod_converse(-i, period, -q - 1, period - k);
    }
    lemma_mod_add_multiples_vanish(-i, period);
}

/// Neighbouring indices are reflected onto neighbouring samples.
pub proof fn law_reflected_steps(i: int, len: int)
    requires
        len > 1,
    ensures
        -1 <= reflected(i + 1, len) - reflected(i, len) <= 1,
        reflected(i + 1, len) != reflected(i, len),
{
    let period = 2 * (len - 1);
    let k = i % period;
    let q = i / period;
    lemma_fundamental_div_mod(i, period);
    if k == period - 1 {
        assert(i + 1 == (q + 1) * period + 0) by (nonlinear_arith)
            requires
                i == period * q + (period - 1),
        ;
        lemma_fundamental_div_mod_converse(i + 1, period, q + 1, 0);
    } else {
        assert(i + 1 == q * period + (k + 1)) by (nonlinear_arith)
            requires
                i == period * q + k,
        ;
        lemma_fundamental_div_mod_converse(i + 1, period, q, k + 1);
    }
}

/// A padding shorter than the signal is a plain reflection: the sample at signed position
/// `q` is the one on which the index `q` is folded.
pub proof fn law_mirror_is_reflection(q: int, len: int)
    requires
        -len < q < 2 * len - 1,
        len > 1,
    ensures
        mirror_source(q, len) == reflected(q, len),
{
    if q < 0 {
        law_reflected_symmetric(q, len);
        law_reflected_inside(-q, len);
    } else if q < len {
        law_reflected_inside(q, len);
    } else {
        law_reflected_symmetric(q, len);
        law_reflected_inside(2 * (len - 1) - q, len);
    }
}

/// Past a whole signal's length a padding holds the sample that it has reached: the last one
/// before the start, and the first one behind the end.
pub proof fn law_mirror_holds_far_ends(q: int, len: int)
    requires
        len > 0,
    ensures
        q <= -len ==> mirror_source(q, len) == len - 1,
        q >= len && q >= 2 * len - 2 ==> mirror_source(q, len) == 0,
        0 <= mirror_source(q, len) < len,
{
}

/// A padded signal has the signal in its middle and is mirrored about its first and about
/// its last sample, as far as the signal and the padding go.
pub proof fn law_padded_is_mirrored<T>(signal: Seq<T>, pad: int, i: int)
    requires
        signal.len() > 0,
        pad >= 0,
        0 <= i < signal.len(),
    ensures
        mirror_padded(signal, pad).len() == signal.len() + 2 * pad,
        mirror_padded(signal, pad)[pad + i] == signal[i],
        i <= pad ==> mirror_padded(signal, pad)[pad - i] == signal[i],
        i <= pad ==> mirror_padded(signal, pad)[pad + signal.len() - 1 + i] == signal[signal.len()
            - 1 - i],
{
}

/// A signal that is carried on starts as it was, runs through itself from its start once
/// more, and then back again.
pub proof fn law_extended_runs_back_and_forth<T>(signal: Seq<T>, len: int, i: int)
    requires
        signal.len() > 0,
        0 <= i < signal.len(),
    ensures
        ({
            let n = signal.len() as int;
            let extended = reflect_extended(signal, len);
            &&& extended.len() == if len <= n {
                n
            } else {
                len
            }
            &&& extended[i] == signal[i]
            &&& n + i < len ==> extended[n + i] == signal[i]
            &&& n + (n - 1) + i < len ==> extended[n + (n - 1) + i] == signal[n - 1 - i]
        }),
{
    let n = signal.len() as int;
    law_reflected_inside(i, n);
    if n > 1 {
        law_reflected_symmetric(n - 1 - i, n);
        law_reflected_inside(n - 1 - i, n);
        assert(2 * (n - 1) - (n - 1 - i) == n - 1 + i);
    }
}

} // verus!
