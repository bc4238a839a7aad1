use hifisampler_core::ieee::Binary32;
use hifisampler_core::tension::{
    filter_by_frames, pre_emphasis_tension, tilt_frame, tension_is_weak,
};

fn b32(x: f32) -> Binary32 {
    Binary32 { bits: x.to_bits() }
}

fn f32_of(b: Binary32) -> f32 {
    f32::from_bits(b.bits)
}

fn plus(a: Binary32, b: Binary32) -> Binary32 {
    b32(f32_of(a) + f32_of(b))
}

fn normalize(sum: Binary32, norm: Binary32) -> Binary32 {
    if f32_of(norm) > 1e-8 {
        b32(f32_of(sum) / f32_of(norm))
    } else {
        sum
    }
}

#[test]
fn filter_that_does_nothing_gives_the_padded_signal() {
    let audio: Vec<i32> = (1..=10).collect();
    let same = |frame: &[i32]| frame.to_vec();
    let sum = |a: i32, b: i32| a + b;
    let average = |a: i32, b: i32| a / b;
    let out = filter_by_frames(&audio, 4, 0, &[1; 8], &same, &sum, &average);
    assert_eq!(out, vec![1, 2, 3, 4, 5, 6, 7, 8, 9, 10, 0, 0]);
}

/// A stand-in for a transform: every sample is a bin.
fn bins(frame: &[Binary32]) -> Vec<f32> {
    frame.iter().map(|&x| f32_of(x)).collect()
}

fn samples(full: &[f32]) -> Vec<Binary32> {
    full.iter().map(|&x| b32(x)).collect()
}

#[test]
fn bins_are_tilted_by_their_numbers_and_mirrored() {
    let transform = |frame: &[i32]| frame.to_vec();
    let inverse = |full: &[i32]| full.to_vec();
    let tilt = |i: usize, bin: i32| bin + 100 * i as i32;
    let conjugate = |bin: i32| -bin;
    let out = tilt_frame(&[1, 2, 3, 4, 5, 6], 6, 0, &transform, &tilt, &conjugate, &inverse);
    assert_eq!(out, vec![1, 102, 203, 304, -203, -102]);
    let out = tilt_frame(&[7], 1, 0, &transform, &tilt, &conjugate, &inverse);
    assert_eq!(out, vec![7]);
}

fn tension<C: Fn(Binary32, Binary32, Binary32) -> Binary32>(
    audio: &[Binary32],
    b: f32,
    hop: usize,
    n_fft: usize,
    factor: f32,
    correct: C,
) -> Vec<Binary32> {
    let weights = vec![b32(1.0); n_fft];
    let tilt = |_: usize, bin: f32| factor * bin;
    pre_emphasis_tension(
        audio,
        b32(b),
        hop,
        &weights,
        0.0,
        &bins,
        &tilt,
        &|bin: f32| bin,
        &samples,
        &plus,
        &normalize,
        &correct,
    )
}

#[test]
fn weak_tension_changes_nothing() {
    let audio = vec![b32(0.5), b32(-0.25)];
    for b in [0.009, -0.009, 0.0] {
        assert_eq!(tension(&audio, b, 0, 0, 2.0, |x, _, _| x), audio);
    }
}

#[test]
fn weak_tensions() {
    for b in [0.0, 0.009, -0.009] {
        assert!(tension_is_weak(b32(b)));
    }
    for b in [0.01, -0.01, 2.0, f32::NAN] {
        assert!(!tension_is_weak(b32(b)));
    }
}

#[test]
fn tension_of_a_hundredth_is_applied() {
    let audio = vec![b32(0.5), b32(-0.25)];
    for b in [0.01, -0.01, 3.0, f32::NAN] {
        assert_eq!(tension(&audio, b, 1, 2, 1.0, |_, _, _| b32(7.0)), vec![b32(7.0); 2]);
    }
}

#[test]
fn tension_is_corrected_by_the_peaks() {
    let audio: Vec<Binary32> = [0.5, -1.0, 0.25, 0.5, 0.125].iter().map(|&x| b32(x)).collect();
    // Back to the peak that there was before: two points have no bin that is mirrored.
    let correct = |x: Binary32, before: Binary32, after: Binary32| {
        b32(f32_of(x) * (f32_of(before) / f32_of(after)))
    };
    assert_eq!(tension(&audio, -0.5, 1, 2, 0.5, correct), audio);
}

#[test]
fn tension_keeps_the_length() {
    let audio = vec![b32(0.25); 7];
    assert_eq!(tension(&audio, -0.5, 2, 4, 1.0, |x, _, _| x).len(), 7);
}
