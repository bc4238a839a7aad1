use hifisampler_core::ieee::{Binary32, Binary64};
use hifisampler_core::resampler::{
    apply_amplitude_modulation, bend_points, clamp_times, cut_render, first_step, is_null_output,
    mix_parts, modulation_is_weak, needs_attenuation, next_render_step, next_step,
    note_or_default, plan_frames, should_use_loop_mode, source_end, steps_after_peak,
    steps_before_peak, stretch_ratio, stretch_times, tempo_or_default, FeatureEvent, FeatureFlags,
    FeatureStep, FramePlan, PostStep, RenderError, RenderEvent, RenderStep,
};

fn b32(x: f32) -> Binary32 {
    Binary32 { bits: x.to_bits() }
}

fn b64(x: f64) -> Binary64 {
    Binary64 { bits: x.to_bits() }
}

fn f64_of(b: Binary64) -> f64 {
    f64::from_bits(b.bits)
}

#[test]
fn test_use_loop_mode_matrix() {
    assert!(!should_use_loop_mode(false, false));
    assert!(should_use_loop_mode(false, true));
    assert!(should_use_loop_mode(true, false));
    assert!(!should_use_loop_mode(true, true));
}

#[test]
fn null_outputs() {
    assert!(is_null_output(&"nul".to_string()));
    assert!(is_null_output(&"/dev/null".to_string()));
    assert!(!is_null_output(&"null.wav".to_string()));
    assert!(!is_null_output(&String::new()));
}

#[test]
fn attenuation_from_half_of_full_scale_on() {
    assert!(needs_attenuation(b32(0.5)));
    assert!(needs_attenuation(b32(1.0)));
    assert!(needs_attenuation(b32(f32::INFINITY)));
    assert!(!needs_attenuation(b32(0.499_999_97)));
    assert!(!needs_attenuation(b32(-1.0)));
    assert!(!needs_attenuation(b32(0.0)));
    assert!(!needs_attenuation(b32(f32::NAN)));
}

fn run(flags: FeatureFlags, cached: bool, peak: f32) -> Vec<FeatureStep> {
    let mut steps = vec![];
    let mut step = first_step(flags);
    while step != FeatureStep::Done && step != FeatureStep::Failed {
        steps.push(step);
        assert!(steps.len() <= 8);
        let event = match step {
            FeatureStep::LoadCache if cached => FeatureEvent::Found,
            FeatureStep::MeasurePeak => FeatureEvent::Peak(b32(peak)),
            _ => FeatureEvent::Finished,
        };
        step = next_step(flags, step, event);
    }
    steps
}

fn flags(gen_cache: bool, needs_hnsep: bool, model_loaded: bool, tension: i32) -> FeatureFlags {
    FeatureFlags { gen_cache, needs_hnsep, model_loaded, tension }
}

#[test]
fn cached_features_need_nothing_else() {
    assert_eq!(run(flags(false, true, true, 1), true, 1.0), vec![FeatureStep::LoadCache]);
}

#[test]
fn features_are_computed_and_stored() {
    assert_eq!(
        run(flags(false, false, true, 0), false, 0.25),
        vec![
            FeatureStep::LoadCache,
            FeatureStep::ReadWave,
            FeatureStep::MeasurePeak,
            FeatureStep::Analyze,
            FeatureStep::StoreCache,
        ]
    );
}

#[test]
fn features_are_computed_anew_when_asked_for() {
    assert_eq!(
        run(flags(true, true, true, 30), true, 0.5),
        vec![
            FeatureStep::ReadWave,
            FeatureStep::Separate,
            FeatureStep::MixTension,
            FeatureStep::MeasurePeak,
            FeatureStep::Attenuate,
            FeatureStep::Analyze,
            FeatureStep::StoreCache,
        ]
    );
    assert_eq!(run(flags(true, true, true, 0), true, 0.5)[2], FeatureStep::MixPlain);
}

#[test]
fn separation_needs_a_model() {
    assert!(!run(flags(false, true, false, 5), false, 1.0).contains(&FeatureStep::Separate));
    assert!(run(flags(false, true, true, 5), false, 1.0).contains(&FeatureStep::Separate));
}

#[test]
fn every_run_arrives() {
    for bits in 0..16 {
        let f = flags(bits & 1 != 0, bits & 2 != 0, bits & 4 != 0, (bits & 8) as i32);
        for cached in [false, true] {
            for peak in [0.0, 0.5, f32::NAN] {
                let steps = run(f, cached, peak);
                let stored = steps.contains(&FeatureStep::StoreCache);
                assert_eq!(stored, !(cached && !f.gen_cache));
            }
        }
    }
}

#[test]
fn failures_end_the_way_without_storing() {
    let f = flags(false, true, true, 1);
    for step in [FeatureStep::ReadWave, FeatureStep::Separate] {
        let after = next_step(f, step, FeatureEvent::Failed);
        assert_eq!(after, FeatureStep::Failed);
        for event in [FeatureEvent::Finished, FeatureEvent::Failed, FeatureEvent::Found] {
            assert_eq!(next_step(f, after, event), FeatureStep::Failed);
        }
    }
}

#[test]
fn a_failing_cache_does_not_matter() {
    let f = flags(false, true, true, 1);
    assert_eq!(
        next_step(f, FeatureStep::LoadCache, FeatureEvent::Failed),
        FeatureStep::ReadWave
    );
    assert_eq!(next_step(f, FeatureStep::StoreCache, FeatureEvent::Failed), FeatureStep::Done);
}

fn rendering(null_output: bool, failing: Option<RenderStep>) -> (Vec<RenderStep>, RenderStep) {
    let mut steps = vec![];
    let mut step = RenderStep::Features;
    while step != RenderStep::Done && step != RenderStep::Failed {
        steps.push(step);
        assert!(steps.len() <= 5);
        let event =
            if failing == Some(step) { RenderEvent::Failed } else { RenderEvent::Finished };
        step = next_render_step(null_output, step, event);
    }
    (steps, step)
}

#[test]
fn notes_are_rendered_and_written_once() {
    let (steps, end) = rendering(false, None);
    assert_eq!(
        steps,
        vec![
            RenderStep::Features,
            RenderStep::Prepare,
            RenderStep::Synthesize,
            RenderStep::Finish,
            RenderStep::Save,
        ]
    );
    assert_eq!(end, RenderStep::Done);
}

#[test]
fn null_outputs_are_not_rendered() {
    assert_eq!(rendering(true, None), (vec![RenderStep::Features], RenderStep::Done));
    assert_eq!(
        rendering(true, Some(RenderStep::Features)),
        (vec![RenderStep::Features], RenderStep::Failed)
    );
}

#[test]
fn failed_renderings_write_nothing() {
    for failing in
        [RenderStep::Features, RenderStep::Prepare, RenderStep::Synthesize, RenderStep::Finish]
    {
        let (steps, end) = rendering(false, Some(failing));
        assert_eq!(end, RenderStep::Failed);
        assert!(!steps.contains(&RenderStep::Save));
        assert_eq!(steps.last(), Some(&failing));
    }
    assert_eq!(rendering(false, Some(RenderStep::Save)).1, RenderStep::Failed);
    for event in [RenderEvent::Finished, RenderEvent::Failed] {
        assert_eq!(next_render_step(false, RenderStep::Done, event), RenderStep::Done);
        assert_eq!(next_render_step(false, RenderStep::Failed, event), RenderStep::Failed);
    }
}

#[test]
fn mixing_is_as_long_as_the_shortest_part() {
    let mix = |w: i32, h: i32, v: i32| 10 * (w - h) + v;
    assert_eq!(mix_parts(&[5, 6, 7], &[1, 2, 3], &[4, 5, 6], &mix), vec![44, 45, 46]);
    assert_eq!(mix_parts(&[5, 6, 7], &[1, 2], &[4, 5, 6], &mix), vec![44, 45]);
    assert_eq!(mix_parts(&[5], &[1, 2], &[4, 5, 6], &mix), vec![44]);
    assert_eq!(mix_parts(&[5, 6], &[1, 2], &[], &mix), Vec::<i32>::new());
}

#[test]
fn negative_cutoffs_count_from_the_start() {
    let (a, b) = (b64(1.0), b64(2.0));
    assert_eq!(source_end(b32(-0.5), a, b), a);
    assert_eq!(source_end(b32(0.0), a, b), b);
    assert_eq!(source_end(b32(-0.0), a, b), b);
    assert_eq!(source_end(b32(5.0), a, b), b);
    assert_eq!(source_end(b32(f32::NAN), a, b), b);
}

#[test]
fn notes_are_never_shortened() {
    let ratio = b64(7.0);
    assert_eq!(stretch_ratio(b64(1.0), b64(2.0), ratio), ratio);
    assert_eq!(stretch_ratio(b64(2.0), b64(2.0), ratio), b64(1.0));
    assert_eq!(stretch_ratio(b64(3.0), b64(2.0), ratio), b64(1.0));
    assert_eq!(stretch_ratio(b64(f64::NAN), b64(2.0), ratio), b64(1.0));
}

#[test]
fn frames_with_a_margin_are_rendered() {
    assert_eq!(plan_frames(100, Some(20), Some(60), 6), Ok(FramePlan { first: 14, end: 66 }));
    assert_eq!(plan_frames(100, Some(6), Some(60), 6), Ok(FramePlan { first: 0, end: 66 }));
    assert_eq!(plan_frames(100, Some(-5), Some(94), 6), Ok(FramePlan { first: 0, end: 100 }));
    assert_eq!(plan_frames(100, None, None, 6), Ok(FramePlan { first: 0, end: 100 }));
    assert_eq!(plan_frames(100, Some(7), Some(3), 6), Ok(FramePlan { first: 1, end: 9 }));
}

#[test]
fn no_frames_to_render() {
    assert_eq!(plan_frames(0, Some(0), Some(0), 6), Err(RenderError::NoFrames));
    assert_eq!(plan_frames(100, Some(200), Some(300), 6), Err(RenderError::NoFrames));
    assert_eq!(plan_frames(100, Some(0), Some(-50), 6), Err(RenderError::NoFrames));
    assert_eq!(
        plan_frames(100, Some(i64::MAX), Some(i64::MIN), 6),
        Err(RenderError::NoFrames)
    );
}

#[test]
fn boundless_margins_render_everything() {
    assert_eq!(
        plan_frames(100, Some(i64::MAX), Some(i64::MIN), usize::MAX),
        Ok(FramePlan { first: 0, end: 100 })
    );
}

#[test]
fn frames_are_planned_as_with_floats() {
    for n in [0usize, 1, 5, 20] {
        for start in -3i64..25 {
            for end in -9i64..25 {
                for fill in [0usize, 2, 6] {
                    let left = start as f64;
                    let cut_left =
                        if left > fill as f64 { left - fill as f64 } else { 0.0 } as usize;
                    let right = n as f64 - end as f64;
                    let cut_right =
                        if right > fill as f64 { right - fill as f64 } else { 0.0 } as usize;
                    let trimmed = n.saturating_sub(cut_right);
                    let first = cut_left.min(trimmed);
                    let expected = if first < trimmed {
                        Ok(FramePlan { first, end: trimmed })
                    } else {
                        Err(RenderError::NoFrames)
                    };
                    assert_eq!(plan_frames(n, Some(start), Some(end), fill), expected);
                }
            }
        }
    }
}

#[test]
fn larger_margins_render_more() {
    let narrow = plan_frames(100, Some(20), Some(60), 2).unwrap();
    let wide = plan_frames(100, Some(20), Some(60), 9).unwrap();
    assert!(wide.first <= narrow.first && narrow.end <= wide.end);
}

#[test]
fn times_are_stretched_around_the_knee() {
    let before = |t: Binary64| b64(f64_of(t) / 2.0);
    let after = |t: Binary64| b64(f64_of(t) - 1.0);
    let times: Vec<Binary64> = [-1.0, 1.0, 2.0, 3.0, 9.0].iter().map(|&t| b64(t)).collect();
    let out = stretch_times(&times, b64(2.0), b64(4.0), &before, &after);
    let expected: Vec<Binary64> = [0.0, 0.5, 1.0, 2.0, 4.0].iter().map(|&t| b64(t)).collect();
    assert_eq!(out, expected);
    assert!(out.iter().all(|&t| 0.0 <= f64_of(t) && f64_of(t) <= 4.0));
    assert_eq!(stretch_times(&[], b64(2.0), b64(-4.0), &before, &after), vec![]);
}

#[test]
fn times_are_clamped() {
    let times: Vec<Binary64> = [-1.0, 0.5, 3.0].iter().map(|&t| b64(t)).collect();
    let expected: Vec<Binary64> = [0.0, 0.5, 2.0].iter().map(|&t| b64(t)).collect();
    assert_eq!(clamp_times(&times, b64(0.0), b64(2.0)), expected);
    assert_eq!(clamp_times(&[], b64(f64::NAN), b64(2.0)), vec![]);
}

#[test]
fn note_is_cut_out_of_the_rendering() {
    let wave = [0, 1, 2, 3, 4];
    assert_eq!(cut_render(&wave, 1, 3), vec![1, 2]);
    assert_eq!(cut_render(&wave, 3, 99), vec![3, 4]);
    assert_eq!(cut_render(&wave, 3, 3), wave.to_vec());
    assert_eq!(cut_render(&wave, 99, 100), wave.to_vec());
    assert_eq!(cut_render(&wave, 4, 2), wave.to_vec());
}

#[test]
fn bend_has_at_least_one_point() {
    assert_eq!(bend_points(&[]), vec![0]);
    assert_eq!(bend_points(&[5, -3]), vec![5, -3]);
}

#[test]
fn tempo_is_positive() {
    assert_eq!(tempo_or_default(b32(90.5)), b32(90.5));
    assert_eq!(tempo_or_default(b32(0.0)), b32(120.0));
    assert_eq!(tempo_or_default(b32(-3.0)), b32(120.0));
    assert_eq!(tempo_or_default(b32(f32::NAN)), b32(120.0));
}

#[test]
fn unreadable_notes_are_middle_c() {
    assert_eq!(note_or_default(Some(72)), 72);
    assert_eq!(note_or_default(None), 60);
}

#[test]
fn modulation_scales_samples_by_the_gain_at_their_time() {
    let pitch = [1, 2, 4];
    let times = [0, 1, 2];
    // Gains: the differences of the neighbours, 1, 3 and 2.
    let edge = |p: i32, q: i32, _: i32, _: i32| q - p;
    let inner = |p: i32, _: i32, q: i32, _: i32, _: i32, _: i32| q - p;
    let between = |_: usize, _: usize, a: i32, b: i32| 10 * (a + b);
    let scale = |s: i32, g: i32| s * g;
    let out = apply_amplitude_modulation(
        &[1, 1, 2, 1, 1], &pitch, &times, &[0, 10, 20], &[-5, 5, 10, 15, 20], b64(-0.01), &edge,
        &inner, &between, &scale,
    );
    assert_eq!(out, vec![1, 40, 6, 50, 2]);
}

#[test]
fn modulation_needs_two_points() {
    let edge = |_: i32, _: i32, _: i32, _: i32| 0;
    let inner = |_: i32, _: i32, _: i32, _: i32, _: i32, _: i32| 0;
    let between = |_: usize, _: usize, _: i32, _: i32| 0;
    let scale = |_: i32, _: i32| 0;
    for (pitch, times, strength) in [
        (vec![1], vec![1, 2, 3], 5.0),
        (vec![1, 2, 3], vec![1], 5.0),
        (vec![1, 2], vec![1, 2, 3], 0.009),
        (vec![1, 2, 3], vec![1, 2], -0.009),
        (vec![], vec![], 5.0),
    ] {
        let nodes: Vec<i64> = times.iter().map(|&t| t as i64).collect();
        let out = apply_amplitude_modulation(
            &[3, 4], &pitch, &times, &nodes, &[0, 1], b64(strength), &edge, &inner, &between,
            &scale,
        );
        assert_eq!(out, vec![3, 4]);
    }
    assert!(modulation_is_weak(b64(0.0)));
    assert!(!modulation_is_weak(b64(0.01)));
}

fn modulated(audio: &[f32], pitch: &[f64], times: &[f64], at: &[f64], a_flag: f64) -> Vec<f32> {
    let keys = |values: &[f64]| -> Vec<i64> {
        values.iter().map(|&x| b64(x).order_key().unwrap()).collect()
    };
    let gain = |slope: f64| 5.0f64.powf(1e-4 * a_flag * slope);
    let edge = |p0: f64, p1: f64, t0: f64, t1: f64| gain((p1 - p0) / (t1 - t0));
    let inner = |p0: f64, p1: f64, p2: f64, t0: f64, t1: f64, t2: f64| {
        let (d1, d2) = (t1 - t0, t2 - t1);
        gain((d1 * d1 * p2 + (d2 * d2 - d1 * d1) * p1 - d2 * d2 * p0) / (d1 * d2 * (d1 + d2)))
    };
    let between = |i: usize, j: usize, g0: f64, g1: f64| {
        g0 + (at[j] - times[i]) / (times[i + 1] - times[i]) * (g1 - g0)
    };
    apply_amplitude_modulation(
        audio, pitch, times, &keys(times), &keys(at), b64(a_flag), &edge, &inner, &between,
        &|s: f32, g: f64| s * g as f32,
    )
}

#[test]
fn modulation_by_an_uneven_pitch() {
    let out = modulated(&[1.0], &[0.0, 100.0, 100.0], &[0.0, 1.0, 3.0], &[1.0], 150.0);
    assert!((out[0] - 5.0).abs() < 1e-4);
}

#[test]
fn steady_pitch_modulates_nothing() {
    let audio = [0.5, -0.25, 1.0, 0.125];
    let out = modulated(&audio, &[60.0; 3], &[0.0, 1.0, 3.0], &[0.0, 0.5, 2.0, 9.0], 150.0);
    assert_eq!(out, audio.to_vec());
}

#[test]
fn modulation_with_more_times_than_pitches() {
    let all = modulated(&[1.0; 3], &[0.0, 10.0], &[0.0, 1.0, 2.0], &[0.5, 1.0, 2.0], 100.0);
    let gain = 5.0f64.powf(1e-4 * 100.0 * 10.0) as f32;
    assert!(all.iter().all(|&s| (s - gain).abs() < 1e-6));
}

#[test]
fn effects_before_the_peak() {
    assert_eq!(steps_before_peak(0, b64(1.0)), vec![]);
    assert_eq!(steps_before_peak(5, b64(1.0)), vec![PostStep::Modulate]);
    assert_eq!(steps_before_peak(0, b64(0.5)), vec![PostStep::Recover]);
    assert_eq!(steps_before_peak(-5, b64(0.5)), vec![PostStep::Modulate, PostStep::Recover]);
    assert_eq!(steps_before_peak(0, b64(0.0)), vec![]);
    assert_eq!(steps_before_peak(0, b64(-0.5)), vec![]);
    assert_eq!(steps_before_peak(0, b64(f64::NAN)), vec![]);
    assert_eq!(steps_before_peak(0, b64(1.0 + f64::EPSILON)), vec![PostStep::Recover]);
}

#[test]
fn effects_after_the_peak() {
    let one = b32(1.0);
    assert_eq!(steps_after_peak(0, true, 0, one, one, false), vec![]);
    assert_eq!(
        steps_after_peak(1, true, 1, b32(1.5), one, true),
        vec![PostStep::Growl, PostStep::Normalize, PostStep::Limit, PostStep::Volume]
    );
    assert_eq!(steps_after_peak(0, false, 100, one, one, false), vec![]);
    assert_eq!(steps_after_peak(-1, true, -1, b32(f32::NAN), one, false), vec![]);
    assert_eq!(steps_after_peak(0, false, 0, one, b32(0.5), false), vec![PostStep::Limit]);
}
