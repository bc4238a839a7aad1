//! Configuration of the sampler: its sections, their default values, and the rule that a
//! field missing from a configuration file takes its default.

use crate::ieee::{Binary32, Binary64};
use vstd::arithmetic::power2::*;
use vstd::prelude::*;

verus! {

/// How the tail of a note is treated by loudness normalization.
#[derive(Clone, Copy, Debug, PartialEq, Eq, Structural)]
pub enum WaveNormTailMode {
    PreserveRelative,
    LegacyProtect,
}

/// The vocoder model: where it lies and what kind it is.
#[derive(Clone, Debug)]
pub struct VocoderConfig {
    pub model: String,
    pub model_type: String,
}

/// The harmonic-noise separation model.
#[derive(Clone, Debug)]
pub struct HnsepConfig {
    pub model: String,
}

/// Signal processing options. Levels are 64-bit floats in dB, the peak limit is a 32-bit
/// float.
#[derive(Clone, Debug)]
pub struct ProcessingConfig {
    pub wave_norm: bool,
    pub wave_norm_clip_silence: bool,
    /// RMS threshold (dB) below which a frame counts as silent.
    pub silence_threshold: Binary64,
    /// Largest positive gain (dB) of loudness normalization.
    pub wave_norm_max_boost_db: Binary64,
    /// Level (dBFS RMS) below which gain blends back to one.
    pub wave_norm_low_level_protect_db: Binary64,
    /// Hard limit (dBFS) on low-level tail frames.
    pub wave_norm_tail_peak_limit_dbfs: Binary64,
    pub wave_norm_tail_mode: WaveNormTailMode,
    pub loop_mode: bool,
    pub peak_limit: Binary32,
}

/// Inference threads and execution provider.
#[derive(Clone, Debug)]
pub struct PerformanceConfig {
    pub num_threads: usize,
    /// One of `auto`, `cpu`, `cuda`, `tensorrt`, `directml`, `dml`, `coreml`, `rocm`.
    pub device: String,
    pub device_id: i32,
}

/// Where the server listens.
#[derive(Clone, Debug)]
pub struct ServerConfig {
    pub host: String,
    pub port: u16,
}

/// The whole configuration.
#[derive(Clone, Debug)]
pub struct Config {
    pub sample_rate: u32,
    pub win_size: usize,
    pub hop_size: usize,
    pub hop_size_interp: usize,
    pub num_mels: usize,
    pub n_fft: usize,
    pub fmin: Binary64,
    pub fmax: Binary64,
    pub pad_frames: usize,
    pub vocoder: VocoderConfig,
    pub hnsep: HnsepConfig,
    pub processing: ProcessingConfig,
    pub performance: PerformanceConfig,
    pub server: ServerConfig,
}

/// A vocoder section as it stands in a file: `None` where a field is missing.
#[derive(Clone, Debug)]
pub struct PartialVocoderConfig {
    pub model: Option<String>,
    pub model_type: Option<String>,
}

/// A separation section as it stands in a file.
#[derive(Clone, Debug)]
pub struct PartialHnsepConfig {
    pub model: Option<String>,
}

/// A processing section as it stands in a file.
#[derive(Clone, Debug)]
pub struct PartialProcessingConfig {
    pub wave_norm: Option<bool>,
    pub wave_norm_clip_silence: Option<bool>,
    pub silence_threshold: Option<Binary64>,
    pub wave_norm_max_boost_db: Option<Binary64>,
    pub wave_norm_low_level_protect_db: Option<Binary64>,
    pub wave_norm_tail_peak_limit_dbfs: Option<Binary64>,
    pub wave_norm_tail_mode: Option<WaveNormTailMode>,
    pub loop_mode: Option<bool>,
    pub peak_limit: Option<Binary32>,
}

/// A performance section as it stands in a file.
#[derive(Clone, Debug)]
pub struct PartialPerformanceConfig {
    pub num_threads: Option<usize>,
    pub device: Option<String>,
    pub device_id: Option<i32>,
}

/// A server section as it stands in a file.
#[derive(Clone, Debug)]
pub struct PartialServerConfig {
    pub host: Option<String>,
    pub port: Option<u16>,
}

/// A configuration as it stands in a file: a field or a whole section may be missing.
#[derive(Clone, Debug)]
pub struct PartialConfig {
    pub sample_rate: Option<u32>,
    pub win_size: Option<usize>,
    pub hop_size: Option<usize>,
    pub hop_size_interp: Option<usize>,
    pub num_mels: Option<usize>,
    pub n_fft: Option<usize>,
    pub fmin: Option<Binary64>,
    pub fmax: Option<Binary64>,
    pub pad_frames: Option<usize>,
    pub vocoder: Option<PartialVocoderConfig>,
    pub hnsep: Option<PartialHnsepConfig>,
    pub processing: Option<PartialProcessingConfig>,
    pub performance: Option<PartialPerformanceConfig>,
    pub server: Option<PartialServerConfig>,
}

// ── Default values ────────────────────────────────────────────────────

pub fn default_sample_rate() -> (r: u32)
    ensures
        r == 44100,
{
    44100
}

pub fn default_win_size() -> (r: usize)
    ensures
        r == 2048,
{
    2048
}

pub fn default_hop_size() -> (r: usize)
    ensures
        r == 512,
{
    512
}

pub fn default_hop_size_interp() -> (r: usize)
    ensures
        r == 128,
{
    128
}

pub fn default_num_mels() -> (r: usize)
    ensures
        r == 128,
{
    128
}

pub fn default_n_fft() -> (r: usize)
    ensures
        r == 2048,
{
    2048
}

pub fn default_fmin() -> (r: Binary64)
    ensures
        r == (Binary64 { bits: 0x4044_0000_0000_0000 }),
        r.is_integer(40),
{
    let r = Binary64 { bits: 0x4044_0000_0000_0000 };
    proof {
        lemma2_to64_rest();
        crate::ieee::lemma_is_integer_64(r, 1028, 40);
    }
    r
}

pub fn default_fmax() -> (r: Binary64)
    ensures
        r == (Binary64 { bits: 0x40cf_4000_0000_0000 }),
        r.is_integer(16000),
{
    let r = Binary64 { bits: 0x40cf_4000_0000_0000 };
    proof {
        lemma2_to64_rest();
        crate::ieee::lemma_is_integer_64(r, 1036, 16000);
    }
    r
}

pub fn default_pad_frames() -> (r: usize)
    ensures
        r == 6,
{
    6
}

pub fn default_vocoder_model() -> (r: String)
    ensures
        r@ == "models/vocoder/model.onnx"@,
{
    "models/vocoder/model.onnx".to_string()
}

pub fn default_vocoder_type() -> (r: String)
    ensures
        r@ == "onnx"@,
{
    "onnx".to_string()
}

pub fn default_hnsep_model() -> (r: String)
    ensures
        r@ == "models/hnsep/model.onnx"@,
{
    "models/hnsep/model.onnx".to_string()
}

pub fn default_silence_threshold() -> (r: Binary64)
    ensures
        r == (Binary64 { bits: 0xc04a_0000_0000_0000 }),
        r.is_integer(-52),
{
    let r = Binary64 { bits: 0xc04a_0000_0000_0000 };
    proof {
        lemma2_to64_rest();
        crate::ieee::lemma_is_integer_64(r, 1028, 52);
    }
    r
}

pub fn default_wave_norm_max_boost_db() -> (r: Binary64)
    ensures
        r == (Binary64 { bits: 0x4032_0000_0000_0000 }),
        r.is_integer(18),
{
    let r = Binary64 { bits: 0x4032_0000_0000_0000 };
    proof {
        lemma2_to64_rest();
        crate::ieee::lemma_is_integer_64(r, 1027, 18);
    }
    r
}

pub fn default_wave_norm_low_level_protect_db() -> (r: Binary64)
    ensures
        r == (Binary64 { bits: 0xc044_0000_0000_0000 }),
        r.is_integer(-40),
{
    let r = Binary64 { bits: 0xc044_0000_0000_0000 };
    proof {
        lemma2_to64_rest();
        crate::ieee::lemma_is_integer_64(r, 1028, 40);
    }
    r
}

pub fn default_wave_norm_tail_peak_limit_dbfs() -> (r: Binary64)
    ensures
        r == (Binary64 { bits: 0xc018_0000_0000_0000 }),
        r.is_integer(-6),
{
    let r = Binary64 { bits: 0xc018_0000_0000_0000 };
    proof {
        lemma2_to64_rest();
        crate::ieee::lemma_is_integer_64(r, 1025, 6);
    }
    r
}

pub fn default_wave_norm_tail_mode() -> (r: WaveNormTailMode)
    ensures
        r == WaveNormTailMode::PreserveRelative,
{
    WaveNormTailMode::PreserveRelative
}

pub fn default_peak_limit() -> (r: Binary32)
    ensures
        r == (Binary32 { bits: 0x3f80_0000 }),
        r.is_integer(1),
{
    proof {
        crate::ieee::lemma_one_32();
    }
    Binary32 { bits: 0x3f80_0000 }
}

pub fn default_num_threads() -> (r: usize)
    ensures
        r == 2,
{
    2
}

pub fn default_device() -> (r: String)
    ensures
        r@ == "auto"@,
{
    "auto".to_string()
}

pub fn default_device_id() -> (r: i32)
    ensures
        r == 0,
{
    0
}

pub fn default_true() -> (r: bool)
    ensures
        r,
{
    true
}

pub fn default_host() -> (r: String)
    ensures
        r@ == "127.0.0.1"@,
{
    "127.0.0.1".to_string()
}

pub fn default_port() -> (r: u16)
    ensures
        r == 8572,
{
    8572
}

// ── Completing a partial configuration ────────────────────────────────

/// The value of a field: what the file gives, or `default`.
pub open spec fn filled<T>(given: Option<T>, default: T) -> T {
    match given {
        Some(value) => value,
        None => default,
    }
}

/// The text of a field: what the file gives, or `default`.
pub open spec fn filled_text(given: Option<String>, default: Seq<char>) -> Seq<char> {
    match given {
        Some(value) => value@,
        None => default,
    }
}

fn fill<T>(given: Option<T>, default: T) -> (r: T)
    ensures
        r == filled(given, default),
{
    match given {
        Some(value) => value,
        None => default,
    }
}

impl PartialVocoderConfig {
    /// A section in which every field is missing.
    pub open spec fn is_empty(self) -> bool {
        self.model is None && self.model_type is None
    }
}

impl PartialHnsepConfig {
    /// A section in which every field is missing.
    pub open spec fn is_empty(self) -> bool {
        self.model is None
    }
}

impl PartialProcessingConfig {
    /// A section in which every field is missing.
    pub open spec fn is_empty(self) -> bool {
        &&& self.wave_norm is None
        &&& self.wave_norm_clip_silence is None
        &&& self.silence_threshold is None
        &&& self.wave_norm_max_boost_db is None
        &&& self.wave_norm_low_level_protect_db is None
        &&& self.wave_norm_tail_peak_limit_dbfs is None
        &&& self.wave_norm_tail_mode is None
        &&& self.loop_mode is None
        &&& self.peak_limit is None
    }
}

impl PartialPerformanceConfig {
    /// A section in which every field is missing.
    pub open spec fn is_empty(self) -> bool {
        self.num_threads is None && self.device is None && self.device_id is None
    }
}

impl PartialServerConfig {
    /// A section in which every field is missing.
    pub open spec fn is_empty(self) -> bool {
        self.host is None && self.port is None
    }
}

impl VocoderConfig {
    /// This section is what `given` says, with defaults where it says nothing.
    pub open spec fn completes(self, given: PartialVocoderConfig) -> bool {
        &&& self.model@ == filled_text(given.model, "models/vocoder/model.onnx"@)
        &&& self.model_type@ == filled_text(given.model_type, "onnx"@)
    }

    pub fn from_partial(given: PartialVocoderConfig) -> (r: Self)
        ensures
            r.completes(given),
    {
        VocoderConfig {
            model: fill(given.model, default_vocoder_model()),
            model_type: fill(given.model_type, default_vocoder_type()),
        }
    }

    pub open spec fn is_default(self) -> bool {
        &&& self.model@ == "models/vocoder/model.onnx"@
        &&& self.model_type@ == "onnx"@
    }
}

impl HnsepConfig {
    /// This section is what `given` says, with defaults where it says nothing.
    pub open spec fn completes(self, given: PartialHnsepConfig) -> bool {
        self.model@ == filled_text(given.model, "models/hnsep/model.onnx"@)
    }

    pub fn from_partial(given: PartialHnsepConfig) -> (r: Self)
        ensures
            r.completes(given),
    {
        HnsepConfig { model: fill(given.model, default_hnsep_model()) }
    }

    pub open spec fn is_default(self) -> bool {
        self.model@ == "models/hnsep/model.onnx"@
    }
}

impl ProcessingConfig {
    /// This section is what `given` says, with defaults where it says nothing.
    pub open spec fn completes(self, given: PartialProcessingConfig) -> bool {
        &&& self.wave_norm == filled(given.wave_norm, false)
        &&& self.wave_norm_clip_silence == filled(given.wave_norm_clip_silence, true)
        &&& match given.silence_threshold {
            Some(level) => self.silence_threshold == level,
            None => self.silence_threshold.is_integer(-52),
        }
        &&& match given.wave_norm_max_boost_db {
            Some(level) => self.wave_norm_max_boost_db == level,
            None => self.wave_norm_max_boost_db.is_integer(18),
        }
        &&& match given.wave_norm_low_level_protect_db {
            Some(level) => self.wave_norm_low_level_protect_db == level,
            None => self.wave_norm_low_level_protect_db.is_integer(-40),
        }
        &&& match given.wave_norm_tail_peak_limit_dbfs {
            Some(level) => self.wave_norm_tail_peak_limit_dbfs == level,
            None => self.wave_norm_tail_peak_limit_dbfs.is_integer(-6),
        }
        &&& self.wave_norm_tail_mode == filled(
            given.wave_norm_tail_mode,
            WaveNormTailMode::PreserveRelative,
        )
        &&& self.loop_mode == filled(given.loop_mode, false)
        &&& match given.peak_limit {
            Some(limit) => self.peak_limit == limit,
            None => self.peak_limit.is_integer(1),
        }
    }

    pub fn from_partial(given: PartialProcessingConfig) -> (r: Self)
        ensures
            r.completes(given),
    {
        ProcessingConfig {
            wave_norm: fill(given.wave_norm, false),
            wave_norm_clip_silence: fill(given.wave_norm_clip_silence, default_true()),
            silence_threshold: fill(given.silence_threshold, default_silence_threshold()),
            wave_norm_max_boost_db: fill(
                given.wave_norm_max_boost_db,
                default_wave_norm_max_boost_db(),
            ),
            wave_norm_low_level_protect_db: fill(
                given.wave_norm_low_level_protect_db,
                default_wave_norm_low_level_protect_db(),
            ),
            wave_norm_tail_peak_limit_dbfs: fill(
                given.wave_norm_tail_peak_limit_dbfs,
                default_wave_norm_tail_peak_limit_dbfs(),
            ),
            wave_norm_tail_mode: fill(given.wave_norm_tail_mode, default_wave_norm_tail_mode()),
            loop_mode: fill(given.loop_mode, false),
            peak_limit: fill(given.peak_limit, default_peak_limit()),
        }
    }

    pub open spec fn is_default(self) -> bool {
        &&& !self.wave_norm
        &&& self.wave_norm_clip_silence
        &&& self.silence_threshold.is_integer(-52)
        &&& self.wave_norm_max_boost_db.is_integer(18)
        &&& self.wave_norm_low_level_protect_db.is_integer(-40)
        &&& self.wave_norm_tail_peak_limit_dbfs.is_integer(-6)
        &&& self.wave_norm_tail_mode == WaveNormTailMode::PreserveRelative
        &&& !self.loop_mode
        &&& self.peak_limit.is_integer(1)
    }
}

impl PerformanceConfig {
    /// This section is what `given` says, with defaults where it says nothing.
    pub open spec fn completes(self, given: PartialPerformanceConfig) -> bool {
        &&& self.num_threads == filled(given.num_threads, 2)
        &&& self.device@ == filled_text(given.device, "auto"@)
        &&& self.device_id == filled(given.device_id, 0)
    }

    pub fn from_partial(given: PartialPerformanceConfig) -> (r: Self)
        ensures
            r.completes(given),
    {
        PerformanceConfig {
            num_threads: fill(given.num_threads, default_num_threads()),
            device: fill(given.device, default_device()),
            device_id: fill(given.device_id, default_device_id()),
        }
    }

    pub open spec fn is_default(self) -> bool {
        &&& self.num_threads == 2
        &&& self.device@ == "auto"@
        &&& self.device_id == 0
    }
}

impl ServerConfig {
    /// This section is what `given` says, with defaults where it says nothing.
    pub open spec fn completes(self, given: PartialServerConfig) -> bool {
        &&& self.host@ == filled_text(given.host, "127.0.0.1"@)
        &&& self.port == filled(given.port, 8572)
    }

    pub fn from_partial(given: PartialServerConfig) -> (r: Self)
        ensures
            r.completes(given),
    {
        ServerConfig {
            host: fill(given.host, default_host()),
            port: fill(given.port, default_port()),
        }
    }

    pub open spec fn is_default(self) -> bool {
        &&& self.host@ == "127.0.0.1"@
        &&& self.port == 8572
    }
}

impl PartialConfig {
    /// Nothing is given: every field and every section is missing.
    pub open spec fn is_empty(self) -> bool {
        &&& self.sample_rate is None
        &&& self.win_size is None
        &&& self.hop_size is None
        &&& self.hop_size_interp is None
        &&& self.num_mels is None
        &&& self.n_fft is None
        &&& self.fmin is None
        &&& self.fmax is None
        &&& self.pad_frames is None
        &&& self.vocoder is None
        &&& self.hnsep is None
        &&& self.processing is None
        &&& self.performance is None
        &&& self.server is None
    }
}

impl Config {
    /// This configuration is what `given` says, with defaults where it says nothing.
    pub open spec fn completes(self, given: PartialConfig) -> bool {
        &&& self.sample_rate == filled(given.sample_rate, 44100)
        &&& self.win_size == filled(given.win_size, 2048)
        &&& self.hop_size == filled(given.hop_size, 512)
        &&& self.hop_size_interp == filled(given.hop_size_interp, 128)
        &&& self.num_mels == filled(given.num_mels, 128)
        &&& self.n_fft == filled(given.n_fft, 2048)
        &&& match given.fmin {
            Some(frequency) => self.fmin == frequency,
            None => self.fmin.is_integer(40),
        }
        &&& match given.fmax {
            Some(frequency) => self.fmax == frequency,
            None => self.fmax.is_integer(16000),
        }
        &&& self.pad_frames == filled(given.pad_frames, 6)
        &&& match given.vocoder {
            Some(section) => self.vocoder.completes(section),
            None => self.vocoder.is_default(),
        }
        &&& match given.hnsep {
            Some(section) => self.hnsep.completes(section),
            None => self.hnsep.is_default(),
        }
        &&& match given.processing {
            Some(section) => self.processing.completes(section),
            None => self.processing.is_default(),
        }
        &&& match given.performance {
            Some(section) => self.performance.completes(section),
            None => self.performance.is_default(),
        }
        &&& match given.server {
            Some(section) => self.server.completes(section),
            None => self.server.is_default(),
        }
    }

    pub open spec fn is_default(self) -> bool {
        &&& self.sample_rate == 44100
        &&& self.win_size == 2048
        &&& self.hop_size == 512
        &&& self.hop_size_interp == 128
        &&& self.num_mels == 128
        &&& self.n_fft == 2048
        &&& self.fmin.is_integer(40)
        &&& self.fmax.is_integer(16000)
        &&& self.pad_frames == 6
        &&& self.vocoder.is_default()
        &&& self.hnsep.is_default()
        &&& self.processing.is_default()
        &&& self.performance.is_default()
        &&& self.server.is_default()
    }

    /// The configuration that a file with the fields of `given` stands for.
    pub fn load(given: PartialConfig) -> (r: Self)
        ensures
            r.completes(given),
    {
        Config {
            sample_rate: fill(given.sample_rate, default_sample_rate()),
            win_size: fill(given.win_size, default_win_size()),
            hop_size: fill(given.hop_size, default_hop_size()),
            hop_size_interp: fill(given.hop_size_interp, default_hop_size_interp()),
            num_mels: fill(given.num_mels, default_num_mels()),
            n_fft: fill(given.n_fft, default_n_fft()),
            fmin: fill(given.fmin, default_fmin()),
            fmax: fill(given.fmax, default_fmax()),
            pad_frames: fill(given.pad_frames, default_pad_frames()),
            vocoder: match given.vocoder {
                Some(section) => VocoderConfig::from_partial(section),
                None => VocoderConfig::default(),
            },
            hnsep: match given.hnsep {
                Some(section) => HnsepConfig::from_partial(section),
                None => HnsepConfig::default(),
            },
            processing: match given.processing {
                Some(section) => ProcessingConfig::from_partial(section),
                None => ProcessingConfig::default(),
            },
            performance: match given.performance {
                Some(section) => PerformanceConfig::from_partial(section),
                None => PerformanceConfig::default(),
            },
            server: match given.server {
                Some(section) => ServerConfig::from_partial(section),
                None => ServerConfig::default(),
            },
        }
    }

    /// The configuration of a file that was read, or the defaults where there was none to
    /// read or it could not be parsed.
    pub fn load_or_default(given: Option<PartialConfig>) -> (r: Self)
        ensures
            match given {
                Some(fields) => r.completes(fields),
                None => r.is_default(),
            },
    {
        match given {
            Some(fields) => Config::load(fields),
            None => Config::default(),
        }
    }
}

impl Default for VocoderConfig {
    fn default() -> (r: Self)
        ensures
            r.is_default(),
    {
        VocoderConfig { model: default_vocoder_model(), model_type: default_vocoder_type() }
    }
}

impl Default for HnsepConfig {
    fn default() -> (r: Self)
        ensures
            r.is_default(),
    {
        HnsepConfig { model: default_hnsep_model() }
    }
}

impl Default for ProcessingConfig {
    fn default() -> (r: Self)
        ensures
            r.is_default(),
    {
        ProcessingConfig {
            wave_norm: false,
            wave_norm_clip_silence: true,
            silence_threshold: default_silence_threshold(),
            wave_norm_max_boost_db: default_wave_norm_max_boost_db(),
            wave_norm_low_level_protect_db: default_wave_norm_low_level_protect_db(),
            wave_norm_tail_peak_limit_dbfs: default_wave_norm_tail_peak_limit_dbfs(),
            wave_norm_tail_mode: default_wave_norm_tail_mode(),
            loop_mode: false,
            peak_limit: default_peak_limit(),
        }
    }
}

impl Default for PerformanceConfig {
    fn default() -> (r: Self)
        ensures
            r.is_default(),
    {
        PerformanceConfig {
            num_threads: default_num_threads(),
            device: default_device(),
            device_id: default_device_id(),
        }
    }
}

impl Default for ServerConfig {
    fn default() -> (r: Self)
        ensures
            r.is_default(),
    {
        ServerConfig { host: default_host(), port: default_port() }
    }
}

impl Default for Config {
    fn default() -> (r: Self)
        ensures
            r.is_default(),
    {
        Config {
            sample_rate: default_sample_rate(),
            win_size: default_win_size(),
            hop_size: default_hop_size(),
            hop_size_interp: default_hop_size_interp(),
            num_mels: default_num_mels(),
            n_fft: default_n_fft(),
            fmin: default_fmin(),
            fmax: default_fmax(),
            pad_frames: default_pad_frames(),
            vocoder: VocoderConfig::default(),
            hnsep: HnsepConfig::default(),
            processing: ProcessingConfig::default(),
            performance: PerformanceConfig::default(),
            server: ServerConfig::default(),
        }
    }
}

// ── Laws ──────────────────────────────────────────────────────────────

/// A file that gives nothing stands for the default configuration, and for no other.
pub proof fn law_empty_file_is_default(config: Config, given: PartialConfig)
    requires
        given.is_empty(),
    ensures
        config.completes(given) <==> config.is_default(),
{
}

/// A section in which every field is missing stands for the same as a missing section.
pub proof fn law_empty_sections_are_default(
    vocoder: VocoderConfig,
    hnsep: HnsepConfig,
    processing: ProcessingConfig,
    performance: PerformanceConfig,
    server: ServerConfig,
    given_vocoder: PartialVocoderConfig,
    given_hnsep: PartialHnsepConfig,
    given_processing: PartialProcessingConfig,
    given_performance: PartialPerformanceConfig,
    given_server: PartialServerConfig,
)
    requires
        given_vocoder.is_empty(),
        given_hnsep.is_empty(),
        given_processing.is_empty(),
        given_performance.is_empty(),
        given_server.is_empty(),
    ensures
        vocoder.completes(given_vocoder) <==> vocoder.is_default(),
        hnsep.completes(given_hnsep) <==> hnsep.is_default(),
        processing.completes(given_processing) <==> processing.is_default(),
        performance.completes(given_performance) <==> performance.is_default(),
        server.completes(given_server) <==> server.is_default(),
{
}

/// What a file gives is what counts, whatever the value and whatever else is given or
/// missing.
pub proof fn law_given_fields_count(config: Config, given: PartialConfig)
    requires
        config.completes(given),
    ensures
        given.sample_rate matches Some(value) ==> config.sample_rate == value,
        given.win_size matches Some(value) ==> config.win_size == value,
        given.hop_size matches Some(value) ==> config.hop_size == value,
        given.hop_size_interp matches Some(value) ==> config.hop_size_interp == value,
        given.num_mels matches Some(value) ==> config.num_mels == value,
        given.n_fft matches Some(value) ==> config.n_fft == value,
        given.pad_frames matches Some(value) ==> config.pad_frames == value,
        given.fmin matches Some(value) ==> config.fmin == value,
        given.fmax matches Some(value) ==> config.fmax == value,
        given.vocoder matches Some(section) ==> config.vocoder.completes(section),
        given.hnsep matches Some(section) ==> config.hnsep.completes(section),
        given.processing matches Some(section) ==> config.processing.completes(section),
        given.performance matches Some(section) ==> config.performance.completes(section),
        given.server matches Some(section) ==> config.server.completes(section),
{
}

/// What a section gives is what counts, whatever the value and whatever else is given or
/// missing.
pub proof fn law_given_section_fields_count(
    config: Config,
    vocoder: PartialVocoderConfig,
    hnsep: PartialHnsepConfig,
    processing: PartialProcessingConfig,
    performance: PartialPerformanceConfig,
    server: PartialServerConfig,
)
    requires
        config.vocoder.completes(vocoder),
        config.hnsep.completes(hnsep),
        config.processing.completes(processing),
        config.performance.completes(performance),
        config.server.completes(server),
    ensures
        vocoder.model matches Some(value) ==> config.vocoder.model@ == value@,
        vocoder.model_type matches Some(value) ==> config.vocoder.model_type@ == value@,
        hnsep.model matches Some(value) ==> config.hnsep.model@ == value@,
        processing.wave_norm matches Some(value) ==> config.processing.wave_norm == value,
        processing.wave_norm_clip_silence matches Some(value)
            ==> config.processing.wave_norm_clip_silence == value,
        processing.wave_norm_tail_mode matches Some(value)
            ==> config.processing.wave_norm_tail_mode == value,
        processing.loop_mode matches Some(value) ==> config.processing.loop_mode == value,
        processing.silence_threshold matches Some(value)
            ==> config.processing.silence_threshold == value,
        processing.wave_norm_max_boost_db matches Some(value)
            ==> config.processing.wave_norm_max_boost_db == value,
        processing.wave_norm_low_level_protect_db matches Some(value)
            ==> config.processing.wave_norm_low_level_protect_db == value,
        processing.wave_norm_tail_peak_limit_dbfs matches Some(value)
            ==> config.processing.wave_norm_tail_peak_limit_dbfs == value,
        processing.peak_limit matches Some(value) ==> config.processing.peak_limit == value,
        performance.device matches Some(value) ==> config.performance.device@ == value@,
        performance.num_threads matches Some(value) ==> config.performance.num_threads == value,
        performance.device_id matches Some(value) ==> config.performance.device_id == value,
        server.host matches Some(value) ==> config.server.host@ == value@,
        server.port matches Some(value) ==> config.server.port == value,
{
}

/// Fields do not depend on each other: two files that agree in a field, or both lack it,
/// stand for configurations that agree in it, whatever else they give. Levels agree in their
/// value.
pub proof fn law_fields_are_independent(
    a: Config,
    b: Config,
    given_a: PartialConfig,
    given_b: PartialConfig,
)
    requires
        a.completes(given_a),
        b.completes(given_b),
    ensures
        given_a.sample_rate == given_b.sample_rate ==> a.sample_rate == b.sample_rate,
        given_a.win_size == given_b.win_size ==> a.win_size == b.win_size,
        given_a.hop_size == given_b.hop_size ==> a.hop_size == b.hop_size,
        given_a.hop_size_interp == given_b.hop_size_interp ==> a.hop_size_interp == b.hop_size_interp,
        given_a.num_mels == given_b.num_mels ==> a.num_mels == b.num_mels,
        given_a.n_fft == given_b.n_fft ==> a.n_fft == b.n_fft,
        given_a.pad_frames == given_b.pad_frames ==> a.pad_frames == b.pad_frames,
        given_a.fmin == given_b.fmin ==> a.fmin.units() == b.fmin.units(),
        given_a.fmax == given_b.fmax ==> a.fmax.units() == b.fmax.units(),
        given_a.vocoder is None && given_b.vocoder is None ==> a.vocoder.is_default()
            && b.vocoder.is_default(),
        given_a.hnsep is None && given_b.hnsep is None ==> a.hnsep.is_default()
            && b.hnsep.is_default(),
        given_a.processing is None && given_b.processing is None ==> a.processing.is_default()
            && b.processing.is_default(),
        given_a.performance is None && given_b.performance is None ==> a.performance.is_default()
            && b.performance.is_default(),
        given_a.server is None && given_b.server is None ==> a.server.is_default()
            && b.server.is_default(),
{
}

/// Fields of a section do not depend on each other either.
pub proof fn law_section_fields_are_independent(
    a: Config,
    b: Config,
    vocoder_a: PartialVocoderConfig,
    vocoder_b: PartialVocoderConfig,
    hnsep_a: PartialHnsepConfig,
    hnsep_b: PartialHnsepConfig,
    processing_a: PartialProcessingConfig,
    processing_b: PartialProcessingConfig,
    performance_a: PartialPerformanceConfig,
    performance_b: PartialPerformanceConfig,
    server_a: PartialServerConfig,
    server_b: PartialServerConfig,
)
    requires
        a.vocoder.completes(vocoder_a),
        b.vocoder.completes(vocoder_b),
        a.hnsep.completes(hnsep_a),
        b.hnsep.completes(hnsep_b),
        a.processing.completes(processing_a),
        b.processing.completes(processing_b),
        a.performance.completes(performance_a),
        b.performance.completes(performance_b),
        a.server.completes(server_a),
        b.server.completes(server_b),
    ensures
        vocoder_a.model == vocoder_b.model ==> a.vocoder.model@
            == b.vocoder.model@,
        vocoder_a.model_type == vocoder_b.model_type ==> a.vocoder.model_type@
            == b.vocoder.model_type@,
        hnsep_a.model == hnsep_b.model ==> a.hnsep.model@
            == b.hnsep.model@,
        processing_a.wave_norm == processing_b.wave_norm
            ==> a.processing.wave_norm == b.processing.wave_norm,
        processing_a.wave_norm_clip_silence == processing_b.wave_norm_clip_silence
            ==> a.processing.wave_norm_clip_silence == b.processing.wave_norm_clip_silence,
        processing_a.wave_norm_tail_mode == processing_b.wave_norm_tail_mode
            ==> a.processing.wave_norm_tail_mode == b.processing.wave_norm_tail_mode,
        processing_a.loop_mode == processing_b.loop_mode
            ==> a.processing.loop_mode == b.processing.loop_mode,
        processing_a.silence_threshold == processing_b.silence_threshold
            ==> a.processing.silence_threshold.units()
            == b.processing.silence_threshold.units(),
        processing_a.wave_norm_max_boost_db == processing_b.wave_norm_max_boost_db
            ==> a.processing.wave_norm_max_boost_db.units()
            == b.processing.wave_norm_max_boost_db.units(),
        processing_a.wave_norm_low_level_protect_db == processing_b.wave_norm_low_level_protect_db
            ==> a.processing.wave_norm_low_level_protect_db.units()
            == b.processing.wave_norm_low_level_protect_db.units(),
        processing_a.wave_norm_tail_peak_limit_dbfs == processing_b.wave_norm_tail_peak_limit_dbfs
            ==> a.processing.wave_norm_tail_peak_limit_dbfs.units()
            == b.processing.wave_norm_tail_peak_limit_dbfs.units(),
        processing_a.peak_limit == processing_b.peak_limit
            ==> a.processing.peak_limit.units()
            == b.processing.peak_limit.units(),
        performance_a.device == performance_b.device ==> a.performance.device@
            == b.performance.device@,
        performance_a.num_threads == performance_b.num_threads
            ==> a.performance.num_threads == b.performance.num_threads,
        performance_a.device_id == performance_b.device_id
            ==> a.performance.device_id == b.performance.device_id,
        server_a.host == server_b.host ==> a.server.host@
            == b.server.host@,
        server_a.port == server_b.port
            ==> a.server.port == b.server.port,
{
}

} // verus!
