use hifisampler_core::ieee::Binary64;
use hifisampler_core::loudness::{
    apply_biquad, apply_gain, apply_gate, cap_boost, find_voiced, frame_rms_db, gain_of,
    gate_blocks, k_weighted, loudness_normalize, measure_lufs, measure_part, measure_weighted,
    rebuild, strength_is_weak, trim_silence_range, Loudness,
};

fn b64(x: f64) -> Binary64 {
    Binary64 { bits: x.to_bits() }
}

fn f64_of(b: Binary64) -> f64 {
    f64::from_bits(b.bits)
}

fn all(values: &[f64]) -> Vec<Binary64> {
    values.iter().map(|&x| b64(x)).collect()
}

fn mean(part: &[Binary64]) -> Binary64 {
    b64(part.iter().map(|&p| f64_of(p)).sum::<f64>() / part.len() as f64)
}

fn tenth(level: Binary64) -> Binary64 {
    b64(f64_of(level) * 0.1)
}

fn power(part: &[f64]) -> Binary64 {
    b64(part.iter().map(|x| x * x).sum::<f64>() / part.len() as f64)
}

#[test]
fn biquad_feeds_back_its_outputs() {
    // y0 = x0 + 2 x1 + 3 x2 - y1 + y2
    let step = |x0: i64, x1: i64, x2: i64, y1: i64, y2: i64| x0 + 2 * x1 + 3 * x2 - y1 + y2;
    assert_eq!(apply_biquad(&[1, 0, 0, 0], 0, &step), vec![1, 1, 3, -2]);
    assert_eq!(apply_biquad(&[], 0, &step), Vec::<i64>::new());
}

#[test]
fn gate_discards_what_lies_below() {
    let powers = all(&[1.0, 3.0, 2.0, f64::NAN, 4.0]);
    assert_eq!(apply_gate(&powers, b64(2.0)), all(&[3.0, 2.0, 4.0]));
}

#[test]
fn gates_nest() {
    let powers = all(&[0.001, 1.0, 3.0, 0.1]);
    let audible = apply_gate(&powers, b64(0.01));
    let counted = apply_gate(&audible, b64(0.5));
    assert_eq!(audible, all(&[1.0, 3.0, 0.1]));
    assert_eq!(counted, all(&[1.0, 3.0]));
}

#[test]
fn gated_loudness_of_blocks() {
    // Not below 0.01: 1, 3, 0.1, of mean 4.1 / 3; not below a tenth of that: 1 and 3.
    let powers = all(&[0.001, 1.0, 3.0, 0.1]);
    assert_eq!(gate_blocks(&powers, b64(0.01), &mean, &tenth), Loudness::Power(b64(2.0)));
    assert_eq!(gate_blocks(&powers, b64(5.0), &mean, &tenth), Loudness::Silent);
    assert_eq!(gate_blocks(&powers, b64(0.01), &mean, &|level| level), {
        Loudness::Power(b64(3.0))
    });
    // A block exactly at a gate counts, at the absolute one and at the relative one.
    assert_eq!(
        gate_blocks(&all(&[1.0]), b64(1.0), &mean, &|level| level),
        Loudness::Power(b64(1.0))
    );
    let above = |level: Binary64| b64(f64_of(level) * 2.0);
    assert_eq!(gate_blocks(&all(&[1.0]), b64(0.01), &mean, &above), Loudness::Silent);
}

#[test]
fn loudness_of_an_empty_signal_is_silence() {
    let r = measure_weighted(&[], 8, b64(0.0), &power, &mean, &tenth);
    assert_eq!(r, Loudness::Silent);
}

#[test]
fn short_signals_are_measured_whole() {
    let r = measure_weighted(&[1.0, 3.0], 8, b64(100.0), &power, &mean, &tenth);
    assert_eq!(r, Loudness::Power(b64(5.0)));
    let r = measure_weighted(&[0.0, 0.0], 8, b64(0.0), &power, &mean, &tenth);
    assert_eq!(r, Loudness::Silent);
    let r = measure_weighted(&[1e-10, 1e-10], 8, b64(0.0), &power, &mean, &tenth);
    assert_eq!(r, Loudness::Power(power(&[1e-10, 1e-10])));
    let r = measure_weighted(&[0.9e-10, 0.9e-10], 8, b64(0.0), &power, &mean, &tenth);
    assert_eq!(r, Loudness::Silent);
}

#[test]
fn long_signals_are_measured_in_overlapping_blocks() {
    // Blocks of 4, one apart: powers 0, 1, 2, 3, 4; from 0.5 on: mean 2.5; from 0.25 on: all
    // four of them.
    let signal = [0.0, 0.0, 0.0, 0.0, 2.0, 2.0, 2.0, 2.0];
    let r = measure_weighted(&signal, 4, b64(0.5), &power, &mean, &tenth);
    assert_eq!(r, Loudness::Power(b64(2.5)));
}

#[test]
fn weighting_is_the_shelf_and_then_the_high_pass() {
    let shelf = |x0: i64, x1: i64, _: i64, _: i64, _: i64| 2 * x0 + x1;
    let highpass = |x0: i64, x1: i64, _: i64, _: i64, _: i64| x0 - x1;
    // Shelf: 2 1 0; high-pass: 2 -1 -1.
    assert_eq!(k_weighted(&[1, 0, 0], 0, &shelf, &highpass), vec![2, -1, -1]);
    let counting = |_: i64, _: i64, _: i64, y1: i64, _: i64| y1 + 1;
    assert_eq!(k_weighted(&[0, 0, 0], 0, &counting, &highpass), vec![1, 1, 1]);
}

#[test]
fn loudness_is_that_of_the_weighted_signal() {
    let double = |x0: f64, _: f64, _: f64, _: f64, _: f64| 2.0 * x0;
    let same = |x0: f64, _: f64, _: f64, _: f64, _: f64| x0;
    let r = measure_lufs(
        &[1.0, 1.0, 1.0, 1.0], 4, b64(0.5), 0.0, &double, &same, &power, &mean, &tenth,
    );
    assert_eq!(r, Loudness::Power(b64(4.0)));
    let r = measure_lufs(&[], 4, b64(0.5), 0.0, &double, &same, &power, &mean, &tenth);
    assert_eq!(r, Loudness::Silent);
}

#[test]
fn only_finite_loudness_gives_a_gain() {
    let gain = |power: Binary64| f64_of(power) + 1.0;
    assert_eq!(gain_of(Loudness::Silent, &gain), None);
    assert_eq!(gain_of(Loudness::Power(b64(0.0)), &gain), None);
    assert_eq!(gain_of(Loudness::Power(b64(f64::INFINITY)), &gain), None);
    assert_eq!(gain_of(Loudness::Power(b64(2.0)), &gain), Some(3.0));
}

#[test]
fn weak_strengths() {
    assert!(strength_is_weak(b64(0.009)));
    assert!(strength_is_weak(b64(-7.0)));
    assert!(!strength_is_weak(b64(0.01)));
    assert!(!strength_is_weak(b64(f64::NAN)));
}

#[test]
fn level_windows_are_those_of_the_sample_rate() {
    let count = |part: &[u8]| b64(part.len() as f64);
    let audio = vec![0u8; 4410];
    let (levels, hop) = frame_rms_db(&audio, 44100, &count);
    assert_eq!(hop, 441);
    assert_eq!(levels.len(), (4410 - 882) / 441 + 1);
    assert!(levels.iter().all(|&l| f64_of(l) == 882.0));
}

#[test]
fn window_lengths_are_exact_for_every_sample_rate() {
    let mut rate: u64 = 0;
    while rate <= u32::MAX as u64 {
        let sr = rate as u32;
        assert_eq!((sr as f64 * 0.02) as usize, (sr / 50) as usize);
        assert_eq!((sr as f64 * 0.01) as usize, (sr / 100) as usize);
        assert_eq!((sr as f64 * 0.1) as usize, (sr / 10) as usize);
        assert_eq!((sr as f64 * 0.2) as usize, (sr / 5) as usize);
        rate += if rate < 1_000_000 { 1 } else { 9_973 };
    }
    for k in 0..40_000_000u32 {
        let sr = 100 * k;
        assert_eq!((sr as f64 * 0.02) as usize, (sr / 50) as usize);
        assert_eq!((sr as f64 * 0.01) as usize, (sr / 100) as usize);
        assert_eq!((sr as f64 * 0.1) as usize, (sr / 10) as usize);
        assert_eq!((sr as f64 * 0.2) as usize, (sr / 5) as usize);
    }
}

#[test]
fn voiced_windows_are_found() {
    let levels = all(&[-60.0, -20.0, -60.0, -30.0, f64::NEG_INFINITY]);
    assert_eq!(find_voiced(&levels, b64(-52.0)), Some((1, 3)));
    // A window exactly at the threshold is voiced.
    assert_eq!(find_voiced(&levels, b64(-30.0)), Some((1, 3)));
    assert_eq!(find_voiced(&levels, b64(-20.0)), Some((1, 1)));
    assert_eq!(find_voiced(&levels, b64(-10.0)), None);
    assert_eq!(find_voiced(&[], b64(-10.0)), None);
}

fn loud(part: &[i32]) -> Binary64 {
    b64(part.iter().map(|&x| x.abs()).max().unwrap_or(0) as f64)
}

#[test]
fn voiced_range_runs_past_the_last_voiced_window() {
    // At 1000 samples a second a window has 20 samples and a hop 10; 10 hops follow.
    let mut audio = vec![0; 1000];
    audio[305] = 9;
    let (trimmed, start, end) = trim_silence_range(&audio, 1000, b64(1.0), &loud);
    assert_eq!(trimmed, audio[start..end].to_vec());
    // Windows 29 (290..310) and 30 (300..320) hold the sample.
    assert_eq!(start, 290);
    assert_eq!(end, (30 + 1 + 10) * 10 + 20);
    // Every voiced window lies inside.
    assert!(start <= 290 && 320 <= end);
}

#[test]
fn voiced_range_ends_with_the_note() {
    let mut audio = vec![0; 400];
    audio[305] = 9;
    assert_eq!(
        trim_silence_range(&audio, 1000, b64(1.0), &loud),
        (audio[290..].to_vec(), 290, 400)
    );
}

#[test]
fn silent_notes_are_kept_whole() {
    let audio = vec![0; 400];
    assert_eq!(trim_silence_range(&audio, 1000, b64(1.0), &loud), (audio.clone(), 0, 400));
    assert_eq!(trim_silence_range(&[0; 3], 1000, b64(1.0), &loud), (vec![0; 3], 0, 3));
}

fn scale(x: i32, gain: i32) -> i32 {
    x * gain
}

fn fade_out(x: i32, gain: i32, pos: usize, len: usize) -> i32 {
    x * gain * (len - pos) as i32 / len as i32
}

fn fade_in(x: i32, pos: usize, len: usize) -> i32 {
    x * pos as i32 / len as i32
}

#[test]
fn rebuilt_note_fades_out_and_in() {
    let audio = vec![12; 12];
    // The part 2..10 fades out over its last quarter, and what follows fades in.
    let out = rebuild(&audio, 2, 10, 1000, 2, 0, &scale, &fade_out, &fade_in);
    assert_eq!(out, vec![0, 0, 24, 24, 24, 24, 24, 24, 24, 12, 0, 6]);
}

#[test]
fn rebuilt_note_is_the_note_past_the_crossfade() {
    let audio: Vec<i32> = (0..20).map(|i| 12 * i).collect();
    let out = rebuild(&audio, 3, 11, 1000, 2, -1, &scale, &fade_out, &fade_in);
    assert_eq!(out[..3], [-1, -1, -1]);
    assert_eq!(out[13..], audio[13..]);
}

#[test]
fn fade_is_no_longer_than_200_ms() {
    let audio = vec![12; 100];
    let out = rebuild(&audio, 0, 80, 10, 1, 0, &scale, &fade_out, &fade_in);
    assert_eq!(out[77], 12);
    assert_eq!(out[78], 12);
    assert_eq!(out[79], 6);
    assert_eq!(out[80], 0);
    assert_eq!(out[81], 6);
    assert_eq!(out[82], 12);
}

fn gain_two(_: Binary64) -> i32 {
    2
}

/// Normalize by a gain of two, measuring with filters that change nothing.
fn normalized(
    audio: &[i32],
    rate: u32,
    strength: f64,
    trim: bool,
    threshold: f64,
    min_block: usize,
    block: usize,
) -> Vec<i32> {
    let same = |x0: f64, _: f64, _: f64, _: f64, _: f64| x0;
    loudness_normalize(
        audio,
        rate,
        b64(strength),
        trim,
        b64(threshold),
        min_block,
        0,
        &loud,
        block,
        b64(1e-7),
        0.0,
        &|x: i32| x as f64,
        &same,
        &same,
        &power,
        &mean,
        &tenth,
        &gain_two,
        &scale,
        &fade_out,
        &fade_in,
    )
}

#[test]
fn weak_or_empty_notes_stay() {
    let audio = vec![1, 2, 3];
    assert_eq!(normalized(&audio, 1000, 0.009, true, 0.0, 8, 8), audio);
    assert_eq!(normalized(&audio, 1000, -5.0, true, 0.0, 8, 8), audio);
    assert_eq!(normalized(&[], 1000, 100.0, true, 0.0, 8, 8), Vec::<i32>::new());
}

#[test]
fn weak_or_empty_notes_stay_at_every_sample_rate() {
    let audio = vec![1, 2, 3];
    for rate in [0, 1, 49, 99] {
        assert_eq!(normalized(&audio, rate, 0.0, true, 0.0, 8, 0), audio);
        assert_eq!(normalized(&[], rate, 100.0, true, 0.0, 8, 0), Vec::<i32>::new());
    }
}

#[test]
fn silent_notes_get_no_gain() {
    let audio = vec![0; 30];
    assert_eq!(normalized(&audio, 1000, 100.0, false, 0.0, 8, 8), audio);
    assert_eq!(normalized(&audio, 1000, 100.0, true, 1.0, 40, 50), audio);
    let none = apply_gain(
        &[1, 2, 3], 1000, 1, 2, 0, Loudness::Silent, &gain_two, &scale, &fade_out, &fade_in,
    );
    assert_eq!(none, vec![1, 2, 3]);
}

#[test]
fn untrimmed_notes_get_the_gain_everywhere() {
    assert_eq!(normalized(&[1, 2, 3], 1000, 0.01, false, 0.0, 8, 8), vec![2, 4, 6]);
}

#[test]
fn short_blocks_measure_shorter_parts() {
    assert_eq!(normalized(&[1, 2], 1000, 1.0, false, 0.0, 2, 3), vec![2, 4]);
}

#[test]
fn trimmed_notes_are_rebuilt_around_the_voiced_part() {
    let mut audio = vec![1; 1000];
    for i in 300..310 {
        audio[i] = 60;
    }
    let out = normalized(&audio, 1000, 100.0, true, 10.0, 8, 8);
    assert_eq!(out.len(), 1000);
    assert_eq!(out[289], 0);
    assert_eq!(out[290], 2);
    assert_eq!(out[305], 120);
    assert_eq!(out[999], 1);
}

#[test]
fn short_parts_are_carried_on_and_measured_as_they_are_heard() {
    let audio = vec![1, 2, 3];
    let double = |x0: f64, _: f64, _: f64, _: f64, _: f64| 2.0 * x0;
    let delay = |_: f64, x1: f64, _: f64, _: f64, _: f64| x1;
    // The part is carried on to 1 2 3 1 2 3 2 1, doubled, and delayed.
    let heard = |block: &[f64]| {
        assert_eq!(block, &[0.0, 2.0, 4.0, 6.0, 2.0, 4.0, 6.0, 4.0]);
        b64(9.0)
    };
    let gain = |power: Binary64| f64_of(power) as i32;
    let out = loudness_normalize(
        &audio, 1000, b64(100.0), false, b64(0.0), 8, 0, &loud, 9, b64(0.0), 0.0,
        &|x: i32| x as f64, &double, &delay, &heard, &mean, &tenth, &gain, &scale, &fade_out,
        &fade_in,
    );
    assert_eq!(out, vec![9, 18, 27]);
}

#[test]
fn parts_are_widened_weighted_and_measured() {
    let double = |x0: f64, _: f64, _: f64, _: f64, _: f64| 2.0 * x0;
    let same = |x0: f64, _: f64, _: f64, _: f64, _: f64| x0;
    let r = measure_part(
        &[1u8, 1], 8, b64(0.5), 0.0, &|x: u8| 3.0 * x as f64, &double, &same, &power, &mean,
        &tenth,
    );
    assert_eq!(r, Loudness::Power(b64(36.0)));
}

#[test]
fn boosts_are_capped() {
    assert_eq!(cap_boost(b64(25.0), b64(18.0)), b64(18.0));
    assert_eq!(cap_boost(b64(18.0), b64(18.0)), b64(18.0));
    assert_eq!(cap_boost(b64(7.5), b64(18.0)), b64(7.5));
    assert_eq!(cap_boost(b64(-30.0), b64(18.0)), b64(-30.0));
    assert_eq!(cap_boost(b64(-3.0), b64(-6.0)), b64(-3.0));
    assert_eq!(cap_boost(b64(25.0), b64(f64::INFINITY)), b64(25.0));
}
