use hifisampler_core::config::{
    default_device, default_device_id, default_fmax, default_fmin, default_hnsep_model,
    default_hop_size, default_hop_size_interp, default_host, default_n_fft, default_num_mels,
    default_num_threads, default_pad_frames, default_peak_limit, default_port,
    default_sample_rate, default_silence_threshold, default_true, default_vocoder_model,
    default_vocoder_type, default_wave_norm_low_level_protect_db, default_wave_norm_max_boost_db,
    default_wave_norm_tail_mode, default_wave_norm_tail_peak_limit_dbfs, default_win_size, Config,
    PartialConfig, PartialHnsepConfig, PartialPerformanceConfig, PartialProcessingConfig,
    PartialServerConfig, PartialVocoderConfig, WaveNormTailMode,
};
use hifisampler_core::ieee::{Binary32, Binary64};

fn f64_of(b: Binary64) -> f64 {
    f64::from_bits(b.bits)
}

fn nothing() -> PartialConfig {
    PartialConfig {
        sample_rate: None,
        win_size: None,
        hop_size: None,
        hop_size_interp: None,
        num_mels: None,
        n_fft: None,
        fmin: None,
        fmax: None,
        pad_frames: None,
        vocoder: None,
        hnsep: None,
        processing: None,
        performance: None,
        server: None,
    }
}

fn assert_defaults(config: &Config) {
    assert_eq!(config.sample_rate, 44100);
    assert_eq!(config.win_size, 2048);
    assert_eq!(config.hop_size, 512);
    assert_eq!(config.hop_size_interp, 128);
    assert_eq!(config.num_mels, 128);
    assert_eq!(config.n_fft, 2048);
    assert_eq!(f64_of(config.fmin), 40.0);
    assert_eq!(f64_of(config.fmax), 16000.0);
    assert_eq!(config.pad_frames, 6);
    assert_eq!(config.vocoder.model, "models/vocoder/model.onnx");
    assert_eq!(config.vocoder.model_type, "onnx");
    assert_eq!(config.hnsep.model, "models/hnsep/model.onnx");
    assert!(!config.processing.wave_norm);
    assert!(config.processing.wave_norm_clip_silence);
    assert_eq!(f64_of(config.processing.silence_threshold), -52.0);
    assert_eq!(f64_of(config.processing.wave_norm_max_boost_db), 18.0);
    assert_eq!(f64_of(config.processing.wave_norm_low_level_protect_db), -40.0);
    assert_eq!(f64_of(config.processing.wave_norm_tail_peak_limit_dbfs), -6.0);
    assert_eq!(config.processing.wave_norm_tail_mode, WaveNormTailMode::PreserveRelative);
    assert!(!config.processing.loop_mode);
    assert_eq!(f32::from_bits(config.processing.peak_limit.bits), 1.0);
    assert_eq!(config.performance.num_threads, 2);
    assert_eq!(config.performance.device, "auto");
    assert_eq!(config.performance.device_id, 0);
    assert_eq!(config.server.host, "127.0.0.1");
    assert_eq!(config.server.port, 8572);
}

#[test]
fn default_values() {
    assert_eq!(default_sample_rate(), 44100);
    assert_eq!(default_win_size(), 2048);
    assert_eq!(default_hop_size(), 512);
    assert_eq!(default_hop_size_interp(), 128);
    assert_eq!(default_num_mels(), 128);
    assert_eq!(default_n_fft(), 2048);
    assert_eq!(f64_of(default_fmin()), 40.0);
    assert_eq!(f64_of(default_fmax()), 16000.0);
    assert_eq!(default_pad_frames(), 6);
    assert_eq!(default_vocoder_model(), "models/vocoder/model.onnx");
    assert_eq!(default_vocoder_type(), "onnx");
    assert_eq!(default_hnsep_model(), "models/hnsep/model.onnx");
    assert_eq!(f64_of(default_silence_threshold()), -52.0);
    assert_eq!(f64_of(default_wave_norm_max_boost_db()), 18.0);
    assert_eq!(f64_of(default_wave_norm_low_level_protect_db()), -40.0);
    assert_eq!(f64_of(default_wave_norm_tail_peak_limit_dbfs()), -6.0);
    assert_eq!(default_wave_norm_tail_mode(), WaveNormTailMode::PreserveRelative);
    assert_eq!(default_peak_limit(), Binary32 { bits: 1.0f32.to_bits() });
    assert_eq!(default_num_threads(), 2);
    assert_eq!(default_device(), "auto");
    assert_eq!(default_device_id(), 0);
    assert!(default_true());
    assert_eq!(default_host(), "127.0.0.1");
    assert_eq!(default_port(), 8572);
}

#[test]
fn default_configuration() {
    assert_defaults(&Config::default());
}

#[test]
fn empty_file_gives_the_defaults() {
    assert_defaults(&Config::load(nothing()));
    assert_defaults(&Config::load_or_default(Some(nothing())));
}

#[test]
fn missing_file_gives_the_defaults() {
    assert_defaults(&Config::load_or_default(None));
}

#[test]
fn empty_sections_give_the_defaults() {
    let mut given = nothing();
    given.vocoder = Some(PartialVocoderConfig { model: None, model_type: None });
    given.hnsep = Some(PartialHnsepConfig { model: None });
    given.processing = Some(PartialProcessingConfig {
        wave_norm: None,
        wave_norm_clip_silence: None,
        silence_threshold: None,
        wave_norm_max_boost_db: None,
        wave_norm_low_level_protect_db: None,
        wave_norm_tail_peak_limit_dbfs: None,
        wave_norm_tail_mode: None,
        loop_mode: None,
        peak_limit: None,
    });
    given.performance = Some(PartialPerformanceConfig {
        num_threads: None,
        device: None,
        device_id: None,
    });
    given.server = Some(PartialServerConfig { host: None, port: None });
    assert_defaults(&Config::load(given));
}

#[test]
fn given_fields_win_over_defaults() {
    let mut given = nothing();
    given.sample_rate = Some(48000);
    given.fmin = Some(Binary64 { bits: 20.5f64.to_bits() });
    given.vocoder = Some(PartialVocoderConfig {
        model: Some("a.onnx".to_string()),
        model_type: None,
    });
    given.processing = Some(PartialProcessingConfig {
        wave_norm: Some(true),
        wave_norm_clip_silence: Some(false),
        silence_threshold: None,
        wave_norm_max_boost_db: None,
        wave_norm_low_level_protect_db: None,
        wave_norm_tail_peak_limit_dbfs: None,
        wave_norm_tail_mode: Some(WaveNormTailMode::LegacyProtect),
        loop_mode: Some(true),
        peak_limit: Some(Binary32 { bits: 0.5f32.to_bits() }),
    });
    given.server = Some(PartialServerConfig { host: None, port: Some(80) });
    let config = Config::load(given);
    assert_eq!(config.sample_rate, 48000);
    assert_eq!(config.win_size, 2048);
    assert_eq!(f64_of(config.fmin), 20.5);
    assert_eq!(config.vocoder.model, "a.onnx");
    assert_eq!(config.vocoder.model_type, "onnx");
    assert!(config.processing.wave_norm);
    assert!(!config.processing.wave_norm_clip_silence);
    assert_eq!(f64_of(config.processing.silence_threshold), -52.0);
    assert_eq!(config.processing.wave_norm_tail_mode, WaveNormTailMode::LegacyProtect);
    assert!(config.processing.loop_mode);
    assert_eq!(f32::from_bits(config.processing.peak_limit.bits), 0.5);
    assert_eq!(config.server.host, "127.0.0.1");
    assert_eq!(config.server.port, 80);
}
