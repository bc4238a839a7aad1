use hifisampler_core::frames::{
    analysis_frames, count_frames, full_spectrum, istft, measure_frames, overlap_add,
    overlap_add_normalized, pad_length, pad_to_hop, positive_bins, split_frames, stft, synthesize,
    zero_pad,
};

fn plus(a: i32, b: i32) -> i32 {
    a + b
}

fn divide(sum: i32, norm: i32) -> i32 {
    if norm > 0 {
        sum / norm
    } else {
        sum
    }
}

#[test]
fn padding_to_the_hop() {
    assert_eq!(pad_length(10, 4), 2);
    assert_eq!(pad_length(8, 4), 0);
    assert_eq!(pad_length(0, 4), 0);
    assert_eq!(pad_to_hop(&[1, 2, 3], 4, 0), vec![1, 2, 3, 0]);
    assert_eq!(pad_to_hop(&[1, 2, 3, 4], 4, 0), vec![1, 2, 3, 4]);
}

#[test]
fn padding_with_silence_around() {
    assert_eq!(zero_pad(&[1, 2], 2, 0), vec![0, 0, 1, 2, 0, 0]);
}

#[test]
fn counting_frames() {
    assert_eq!(count_frames(10, 4, 2), 4);
    assert_eq!(count_frames(11, 4, 2), 4);
    assert_eq!(count_frames(3, 4, 2), 0);
    assert_eq!(count_frames(4, 4, 2), 1);
}

#[test]
fn splitting_into_frames() {
    assert_eq!(
        split_frames(&[1, 2, 3, 4, 5], 3, 1),
        vec![vec![1, 2, 3], vec![2, 3, 4], vec![3, 4, 5]]
    );
    assert_eq!(split_frames(&[1, 2], 3, 1), Vec::<Vec<i32>>::new());
}

#[test]
fn measuring_frames() {
    let sum = |part: &[i32]| part.iter().sum::<i32>();
    assert_eq!(measure_frames(&[1, 2, 3, 4, 5], 2, 2, &sum), vec![3, 7]);
    assert_eq!(measure_frames(&[1], 2, 0, &sum), Vec::<i32>::new());
}

#[test]
fn analysis_centres_the_frames() {
    assert_eq!(
        analysis_frames(&[1, 2, 3, 4], 4, 2, 0),
        vec![vec![0, 0, 1, 2], vec![1, 2, 3, 4], vec![3, 4, 0, 0]]
    );
}

#[test]
fn transform_counts_one_frame_per_hop_and_one_more() {
    let signal = vec![1; 1000];
    assert_eq!(analysis_frames(&signal, 64, 16, 0).len(), 1000 / 16 + 1);
}

#[test]
fn spectra_are_halved_and_rebuilt() {
    let conjugate = |(re, im): (i32, i32)| (re, -im);
    let full = vec![(1, 0), (2, 5), (3, 6), (4, 0), (3, -6), (2, -5)];
    let half = positive_bins(&full, 6);
    assert_eq!(half, vec![(1, 0), (2, 5), (3, 6), (4, 0)]);
    assert_eq!(full_spectrum(&half, 6, (0, 0), &conjugate), full);
}

#[test]
fn rebuilt_spectrum_of_odd_length_ends_in_zero() {
    let conjugate = |(re, im): (i32, i32)| (re, -im);
    let half = vec![(1, 0), (2, 5), (3, 6)];
    assert_eq!(
        full_spectrum(&half, 5, (0, 0), &conjugate),
        vec![(1, 0), (2, 5), (3, 6), (2, -5), (0, 0)]
    );
}

#[test]
fn short_time_transform_keeps_positive_bins() {
    // A stand-in for a transform: it doubles every sample.
    let transform = |frame: &[i32]| frame.iter().map(|&x| 2 * x).collect::<Vec<i32>>();
    assert_eq!(
        stft(&[1, 2, 3, 4], 4, 2, 0, &transform),
        vec![vec![0, 0, 2], vec![2, 4, 6], vec![6, 8, 0]]
    );
}

#[test]
fn inverse_transform_rebuilds_and_overlaps() {
    let inverse = |full: &[i32]| full.to_vec();
    let conjugate = |c: i32| -c;
    let spectra = vec![vec![1, 2, 3], vec![4, 5, 6]];
    // Full spectra: 1 2 3 -2 and 4 5 6 -5, laid two apart: 1 2 7 3 6 -5.
    assert_eq!(
        istft(&spectra, &[1; 4], 2, 3, 0, &conjugate, &inverse, 0, &plus, &|a, _| a),
        vec![7, 3, 6]
    );
    assert_eq!(
        istft(&spectra, &[1; 4], 2, 100, 0, &conjugate, &inverse, 0, &plus, &|a, _| a),
        vec![7, 3, 6, -5]
    );
}

#[test]
fn overlapping_frames_add_up() {
    let frames = vec![vec![1, 1, 1], vec![2, 2, 2], vec![3, 3, 3]];
    assert_eq!(overlap_add(&frames, 3, 1, 0, &plus), vec![1, 3, 6, 5, 3]);
    assert_eq!(overlap_add(&frames, 3, 3, 0, &plus), vec![1, 1, 1, 2, 2, 2, 3, 3, 3]);
}

#[test]
fn overlap_is_settled_against_the_weights() {
    let frames = vec![vec![2, 4, 6], vec![4, 6, 8]];
    assert_eq!(
        overlap_add_normalized(&frames, &[2, 2, 2], 1, 0, &plus, &divide),
        vec![1, 2, 3, 4]
    );
    // Where no weight falls, the sum stays.
    assert_eq!(
        overlap_add_normalized(&frames, &[0, 2, 2], 3, 0, &plus, &divide),
        vec![2, 2, 3, 4, 3, 4]
    );
}

#[test]
fn synthesis_drops_the_half_frame_in_front() {
    let frames = vec![vec![0, 0, 1, 2], vec![1, 2, 3, 4], vec![3, 4, 0, 0]];
    assert_eq!(
        synthesize(&frames, &[1; 4], 2, 4, 0, &plus, &divide),
        vec![1, 2, 3, 4]
    );
    assert_eq!(synthesize(&frames, &[1; 4], 2, 3, 0, &plus, &divide), vec![1, 2, 3]);
    assert_eq!(
        synthesize(&frames, &[1; 4], 2, 50, 0, &plus, &divide),
        vec![1, 2, 3, 4, 0, 0]
    );
}

#[test]
fn analysis_and_synthesis_give_the_signal_back() {
    let signal: Vec<i32> = (1..40).collect();
    let frames = analysis_frames(&signal, 8, 4, 0);
    let back = synthesize(&frames, &[1; 8], 4, signal.len(), 0, &plus, &divide);
    assert_eq!(back, signal);
    // Every frame agrees with the signal that it was cut from.
    for (k, frame) in split_frames(&signal, 8, 3).iter().enumerate() {
        assert_eq!(frame[..], signal[3 * k..3 * k + 8]);
    }
}

#[test]
fn inverse_transform_of_the_transform_gives_the_signal_back() {
    // A discrete Fourier transform and its inverse, with a Hann window on either side.
    let n = 16usize;
    let hop = 4usize;
    let turn = |k: usize| 2.0 * std::f64::consts::PI * (k % n) as f64 / n as f64;
    let window: Vec<f64> = (0..n).map(|i| 0.5 * (1.0 - turn(i).cos())).collect();
    let transform = |frame: &[f64]| -> Vec<(f64, f64)> {
        (0..n)
            .map(|k| {
                let re = (0..n).map(|i| frame[i] * window[i] * turn(i * k).cos()).sum();
                let im = (0..n).map(|i| -frame[i] * window[i] * turn(i * k).sin()).sum();
                (re, im)
            })
            .collect()
    };
    let inverse = |full: &[(f64, f64)]| -> Vec<f64> {
        (0..n)
            .map(|i| {
                let re: f64 = (0..n)
                    .map(|k| full[k].0 * turn(i * k).cos() - full[k].1 * turn(i * k).sin())
                    .sum();
                re / n as f64 * window[i]
            })
            .collect()
    };
    let weights: Vec<f64> = window.iter().map(|w| w * w).collect();
    let signal: Vec<f64> = (0..50).map(|i| ((i * i) % 17) as f64 / 17.0 - 0.5).collect();
    let spectra = stft(&signal, n, hop, 0.0, &transform);
    let settle = |sum: f64, norm: f64| if norm > 1e-8 { sum / norm } else { sum };
    let back = istft(
        &spectra,
        &weights,
        hop,
        signal.len(),
        (0.0, 0.0),
        &|(re, im): (f64, f64)| (re, -im),
        &inverse,
        0.0,
        &|a: f64, b: f64| a + b,
        &settle,
    );
    assert_eq!(back.len(), signal.len());
    assert!(back.iter().zip(&signal).all(|(b, s)| (b - s).abs() <= 1e-9));
}
