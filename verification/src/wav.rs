//! Reading and writing WAV data: `hound` takes the bytes apart and puts them together; what
//! it finds is checked, scaled and mixed down here.

use crate::ieee::Binary32;
use vstd::arithmetic::div_mod::*;
use vstd::arithmetic::power2::*;
use vstd::bits::*;
use vstd::prelude::*;

verus! {

/// `hound`'s error.
#[verifier::external_type_specification]
#[verifier::external_body]
pub struct ExHoundError(hound::Error);

/// What the header of WAV data says.
#[derive(Clone, Copy, Debug, PartialEq, Eq, Structural)]
pub struct WavHeader {
    pub channels: u16,
    pub sample_rate: u32,
    pub bits_per_sample: u16,
    /// Samples are floats rather than integers.
    pub float: bool,
}

/// WAV data that was read.
#[derive(Debug)]
pub enum WavAudio {
    /// Integer samples, channels interleaved.
    Int(WavHeader, Vec<i32>),
    /// The samples are floats; they are not read here.
    Float(WavHeader),
}

/// Why WAV data could not be read.
#[derive(Debug)]
pub enum WavError {
    /// The header is not that of WAV data.
    Header(hound::Error),
    /// The header is fine, but a sample is not.
    Sample(hound::Error),
}

/// The header that `hound` finds in WAV data, if it finds one: channels, sample rate, bits
/// per sample, and whether samples are floats.
pub uninterp spec fn parsed_header(bytes: Seq<u8>) -> Option<(u16, u32, u16, bool)>;

/// The integer samples that `hound` finds in WAV data, if it can read all of them.
pub uninterp spec fn parsed_samples(bytes: Seq<u8>) -> Option<Seq<i32>>;

/// A sample uses no more than `bits` bits, which are at most 32.
pub open spec fn sample_fits(sample: i32, bits: u16) -> bool {
    1 <= bits <= 32 && -pow2((bits - 1) as nat) <= sample < pow2((bits - 1) as nat)
}

/// Every sample uses no more than `bits` bits.
pub open spec fn samples_fit(samples: Seq<i32>, bits: u16) -> bool {
    forall|i: int| 0 <= i < samples.len() ==> sample_fits(#[trigger] samples[i], bits)
}

/// `hound`'s `WavReader::new` and `spec` on bytes in memory: the header, or an error. A
/// header that it accepts has at least one channel and at least one bit per sample.
#[verifier::external_body]
fn read_header(bytes: &[u8]) -> (r: Result<(u16, u32, u16, bool), hound::Error>)
    ensures
        r is Ok <==> parsed_header(bytes@) is Some,
        r matches Ok(header) ==> parsed_header(bytes@) == Some(header) && header.0 >= 1 && header.2
            >= 1,
{
    let spec = hound::WavReader::new(bytes)?.spec();
    let float = match spec.sample_format {
        hound::SampleFormat::Float => true,
        hound::SampleFormat::Int => false,
    };
    Ok((spec.channels, spec.sample_rate, spec.bits_per_sample, float))
}

/// `hound`'s `WavReader::into_samples` for `i32` on bytes in memory: all samples, channels
/// interleaved, or the first error. There are as many for each channel, and a sample uses
/// no more than the bits that the header tells.
#[verifier::external_body]
fn read_samples(bytes: &[u8]) -> (r: Result<Vec<i32>, hound::Error>)
    ensures
        r is Ok <==> parsed_samples(bytes@) is Some,
        r matches Ok(samples) ==> {
            &&& parsed_samples(bytes@) == Some(samples@)
            &&& parsed_header(bytes@) matches Some(header) && samples@.len() % (header.0 as nat)
                == 0 && samples_fit(samples@, header.2)
        },
{
    hound::WavReader::new(bytes)?.into_samples::<i32>().collect()
}

impl WavHeader {
    /// The header in the form in which `parsed_header` gives it.
    pub open spec fn fields(self) -> (u16, u32, u16, bool) {
        (self.channels, self.sample_rate, self.bits_per_sample, self.float)
    }
}

/// `r` is what reading WAV data gives: an error where `hound` finds no header, the header
/// alone where the samples are floats, and the header and the samples, or an error, where
/// they are integers.
pub open spec fn is_decoded(bytes: Seq<u8>, r: Result<WavAudio, WavError>) -> bool {
    match parsed_header(bytes) {
        None => r matches Err(WavError::Header(_)),
        Some(header) => if header.3 {
            r matches Ok(WavAudio::Float(h)) && h.fields() == header
        } else {
            match parsed_samples(bytes) {
                None => r matches Err(WavError::Sample(_)),
                Some(samples) => r matches Ok(WavAudio::Int(h, s)) && h.fields() == header && s@
                    == samples,
            }
        },
    }
}

/// Read WAV data from memory: its header, and its samples where they are integers.
pub fn decode_wav(bytes: &[u8]) -> (r: Result<WavAudio, WavError>)
    ensures
        is_decoded(bytes@, r),
        r matches Ok(WavAudio::Float(h)) ==> h.channels >= 1 && h.bits_per_sample >= 1,
        r matches Ok(WavAudio::Int(h, s)) ==> {
            &&& h.channels >= 1
            &&& h.bits_per_sample >= 1
            &&& s@.len() % (h.channels as nat) == 0
            &&& samples_fit(s@, h.bits_per_sample)
        },
{
    match read_header(bytes) {
        Err(error) => Err(WavError::Header(error)),
        Ok((channels, sample_rate, bits_per_sample, float)) => {
            let header = WavHeader { channels, sample_rate, bits_per_sample, float };
            if float {
                Ok(WavAudio::Float(header))
            } else {
                match read_samples(bytes) {
                    Err(error) => Err(WavError::Sample(error)),
                    Ok(samples) => Ok(WavAudio::Int(header, samples)),
                }
            }
        },
    }
}

/// Written data has one channel.
pub const WRITTEN_CHANNELS: u16 = 1;

/// Written samples have 16 bits.
pub const WRITTEN_BITS: u16 = 16;

/// The two bytes of `x`, the lower first.
pub open spec fn le16(x: int) -> Seq<u8> {
    seq![(x % 0x100) as u8, (x / 0x100 % 0x100) as u8]
}

/// The four bytes of `x`, the lowest first.
pub open spec fn le32(x: int) -> Seq<u8> {
    le16(x % 0x1_0000) + le16(x / 0x1_0000)
}

/// The bytes of 16-bit samples, each in two's complement with the lower byte first.
pub open spec fn sample_bytes(samples: Seq<i16>) -> Seq<u8> {
    Seq::new(
        2 * samples.len(),
        |i: int|
            {
                let sample = samples[i / 2] as int;
                le16(
                    if sample < 0 {
                        sample + 0x1_0000
                    } else {
                        sample
                    },
                )[i % 2]
            },
    )
}

/// WAV data of 16-bit samples on one channel: the header of 44 bytes, whose tags read
/// `RIFF`, `WAVE`, `fmt ` and `data`, and the samples.
pub open spec fn wav_bytes(samples: Seq<i16>, sample_rate: u32) -> Seq<u8> {
    let size = 2 * samples.len() as int;
    seq![0x52u8, 0x49u8, 0x46u8, 0x46u8] + le32(36 + size) + seq![0x57u8, 0x41u8, 0x56u8, 0x45u8]
        + seq![0x66u8, 0x6du8, 0x74u8, 0x20u8] + le32(16) + le16(1) + le16(
        WRITTEN_CHANNELS as int,
    ) + le32(sample_rate as int) + le32(2 * sample_rate) + le16(2) + le16(WRITTEN_BITS as int)
        + seq![0x64u8, 0x61u8, 0x74u8, 0x61u8] + le32(size) + sample_bytes(samples)
}

/// The data of 16-bit samples fits into the 32-bit sizes that WAV data has, and into twice
/// the memory, which a vector that grows may ask for.
pub open spec fn size_fits(count: int, sample_rate: int) -> bool {
    &&& 0 < sample_rate
    &&& 2 * sample_rate <= u32::MAX
    &&& 2 * count + 36 <= u32::MAX
    &&& 4 * (count + 22) <= isize::MAX
}

/// Reading `bytes` gives back `samples`: one channel, 16 bits, the given sample rate.
pub open spec fn reads_back(bytes: Seq<u8>, samples: Seq<i16>, sample_rate: u32) -> bool {
    &&& parsed_header(bytes) == Some((1u16, sample_rate, 16u16, false))
    &&& parsed_samples(bytes) == Some(samples.map_values(|s: i16| s as i32))
}

/// `hound`'s `WavWriter` in memory, for integer samples of 16 bits on one channel: `new`,
/// `write_sample` for each sample in turn, and `finalize`. It divides by the sample rate and
/// keeps sizes in 32 bits, which `size_fits` allows for; writing to memory does not fail.
/// It writes the short header and the samples in order, and `WavReader` reads them back.
#[verifier::external_body]
fn write_samples(samples: &[i16], channels: u16, sample_rate: u32, bits: u16) -> (r: Result<
    Vec<u8>,
    hound::Error,
>)
    requires
        channels == 1,
        bits == 16,
        size_fits(samples@.len() as int, sample_rate as int),
    ensures
        r is Ok,
        r->Ok_0@ == wav_bytes(samples@, sample_rate),
        reads_back(r->Ok_0@, samples@, sample_rate),
{
    let sample_format = hound::SampleFormat::Int;
    let spec = hound::WavSpec { channels, sample_rate, bits_per_sample: bits, sample_format };
    let mut bytes = std::io::Cursor::new(Vec::new());
    let mut writer = hound::WavWriter::new(&mut bytes, spec)?;
    for sample in samples {
        writer.write_sample(*sample)?;
    }
    writer.finalize()?;
    Ok(bytes.into_inner())
}

/// Write 16-bit samples of one channel as WAV data. Reading the data gives the samples back.
pub fn encode_wav(samples: &[i16], sample_rate: u32) -> (r: Result<Vec<u8>, hound::Error>)
    requires
        size_fits(samples@.len() as int, sample_rate as int),
    ensures
        r is Ok,
        r->Ok_0@ == wav_bytes(samples@, sample_rate),
        reads_back(r->Ok_0@, samples@, sample_rate),
{
    write_samples(samples, WRITTEN_CHANNELS, sample_rate, WRITTEN_BITS)
}

/// `quantized` is what `quantize` makes of each sample.
pub open spec fn are_quantized<T, Q: Fn(T) -> i16>(
    samples: Seq<T>,
    quantize: Q,
    quantized: Seq<i16>,
) -> bool {
    &&& quantized.len() == samples.len()
    &&& forall|i: int|
        0 <= i < samples.len() ==> quantize.ensures((samples[i],), #[trigger] quantized[i])
}

/// `bytes` is WAV data of the quantized samples.
pub open spec fn is_saved<T, Q: Fn(T) -> i16>(
    samples: Seq<T>,
    sample_rate: u32,
    quantize: Q,
    bytes: Seq<u8>,
) -> bool {
    exists|quantized: Seq<i16>|
        {
            &&& #[trigger] are_quantized(samples, quantize, quantized)
            &&& bytes == wav_bytes(quantized, sample_rate)
            &&& reads_back(bytes, quantized, sample_rate)
        }
}

/// Write a signal as WAV data of one channel, its samples quantized to 16 bits.
pub fn save_wav<T: Copy, Q: Fn(T) -> i16>(
    samples: &[T],
    sample_rate: u32,
    quantize: &Q,
) -> (r: Result<Vec<u8>, hound::Error>)
    requires
        size_fits(samples@.len() as int, sample_rate as int),
        forall|x: T| #[trigger] quantize.requires((x,)),
    ensures
        r matches Ok(bytes) && is_saved(samples@, sample_rate, *quantize, bytes@),
{
    let mut quantized: Vec<i16> = Vec::new();
    for i in 0..samples.len()
        invariant
            forall|x: T| #[trigger] quantize.requires((x,)),
            quantized@.len() == i,
            forall|k: int|
                0 <= k < i ==> quantize.ensures((samples@[k],), #[trigger] quantized@[k]),
    {
        quantized.push(quantize(samples[i]));
    }
    assert(are_quantized(samples@, *quantize, quantized@));
    encode_wav(quantized.as_slice(), sample_rate)
}

/// The value of a sample at full scale, by which integer samples are divided. At 64 bits
/// the power of two wraps around.
pub fn full_scale(bits_per_sample: u16) -> (r: i64)
    requires
        1 <= bits_per_sample <= 64,
    ensures
        bits_per_sample < 64 ==> r == pow2((bits_per_sample - 1) as nat),
        bits_per_sample == 64 ==> r == i64::MIN,
        bits_per_sample < 64 ==> r > 0 && 2 * r == pow2(bits_per_sample as nat),
{
    if bits_per_sample == 64 {
        return i64::MIN;
    }
    let shift: u64 = (bits_per_sample - 1) as u64;
    proof {
        lemma2_to64();
        lemma2_to64_rest();
        lemma_pow2_unfold(bits_per_sample as nat);
        lemma_pow2_pos(shift as nat);
        if shift < 62 {
            lemma_pow2_strictly_increases(shift as nat, 62);
        }
        lemma_u64_shl_is_mul(1, shift);
    }
    (1u64 << shift) as i64
}

/// The number of groups of `channels` samples, the last of which may be short.
pub open spec fn group_count(len: int, channels: int) -> int {
    (len + channels - 1) / channels
}

/// The end of group `k` of `channels` samples.
pub open spec fn group_end(k: int, len: int, channels: int) -> int {
    if (k + 1) * channels <= len {
        (k + 1) * channels
    } else {
        len
    }
}

/// `mono` is `samples` mixed down to one channel: the average of each group of samples. A
/// single channel stays as it is.
pub open spec fn is_mono<T, F: Fn(&[T]) -> T>(
    samples: Seq<T>,
    channels: u16,
    average: F,
    mono: Seq<T>,
) -> bool {
    if channels <= 1 {
        mono == samples
    } else {
        &&& mono.len() == group_count(samples.len() as int, channels as int)
        &&& forall|k: int|
            0 <= k < mono.len() ==> crate::frames::measures(
                average,
                samples.subrange(
                    k * channels,
                    group_end(k, samples.len() as int, channels as int),
                ),
                #[trigger] mono[k],
            )
    }
}

/// Mix interleaved channels down to one.
pub fn to_mono<T: Copy, F: Fn(&[T]) -> T>(samples: &[T], channels: u16, average: &F) -> (r: Vec<T>)
    requires
        forall|group: &[T]| #[trigger] average.requires((group,)),
    ensures
        is_mono(samples@, channels, *average, r@),
{
    if channels <= 1 {
        return vstd::slice::slice_to_vec(samples);
    }
    let width: usize = channels as usize;
    let len: usize = samples.len();
    let mut mono: Vec<T> = Vec::new();
    let mut start: usize = 0;
    while start < len
        invariant
            width == channels,
            width > 1,
            len == samples@.len(),
            forall|group: &[T]| #[trigger] average.requires((group,)),
            start == if mono@.len() * width <= len {
                mono@.len() * width
            } else {
                len as int
            },
            mono@.len() > 0 ==> (mono@.len() - 1) * width < len,
            forall|k: int|
                0 <= k < mono@.len() ==> crate::frames::measures(
                    *average,
                    samples@.subrange(k * channels, group_end(k, len as int, width as int)),
                    #[trigger] mono@[k],
                ),
        decreases len - start,
    {
        let ghost k = mono@.len() as int;
        assert((k + 1) * width == k * width + width) by (nonlinear_arith);
        let end: usize = if len - start >= width {
            start + width
        } else {
            len
        };
        let group: &[T] = vstd::slice::slice_subrange(samples, start, end);
        let value: T = average(group);
        assert(average.ensures((group,), value));
        assert(crate::frames::measures(
            *average,
            samples@.subrange(k * channels, group_end(k, len as int, width as int)),
            value,
        ));
        mono.push(value);
        start = end;
    }
    proof {
        let n = mono@.len() as int;
        if n == 0 {
            lemma_basic_div(width - 1, width as int);
        } else {
            let rest = len + width - 1 - n * width;
            assert((n - 1) * width == n * width - width) by (nonlinear_arith);
            lemma_fundamental_div_mod_converse(len + width - 1, width as int, n, rest);
        }
    }
    mono
}

// ── Reading a signal ──────────────────────────────────────────────────

/// A signal that was read from WAV data.
#[derive(Debug)]
pub enum WavSignal<T> {
    /// The samples, scaled, mixed down to one channel, and brought to the rate asked for.
    Mono(Vec<T>),
    /// The samples are floats; they are not read here.
    Float(WavHeader),
}

/// Why a signal could not be read.
#[derive(Debug)]
pub enum ReadError<E> {
    /// The data could not be read.
    Wav(WavError),
    /// The signal could not be brought to the rate asked for.
    Resample(E),
}

/// `scaled` is what `scale` makes of each sample and the value of full scale.
pub open spec fn are_scaled<T, S: Fn(i32, i64) -> T>(
    samples: Seq<i32>,
    bits: u16,
    scale: S,
    scaled: Seq<T>,
) -> bool {
    &&& scaled.len() == samples.len()
    &&& forall|i: int|
        0 <= i < samples.len() ==> scale.ensures(
            (samples[i], pow2((bits - 1) as nat) as i64),
            #[trigger] scaled[i],
        )
}

/// `mono` is `samples` scaled and mixed down.
pub open spec fn is_scaled_mono<T, S: Fn(i32, i64) -> T, A: Fn(&[T]) -> T>(
    samples: Seq<i32>,
    channels: u16,
    bits: u16,
    scale: S,
    average: A,
    mono: Seq<T>,
) -> bool {
    exists|scaled: Seq<T>| #[trigger]
        are_scaled(samples, bits, scale, scaled) && is_mono(scaled, channels, average, mono)
}

/// Scale integer samples: each goes through `scale` with the value of full scale.
pub fn scale_samples<T, S: Fn(i32, i64) -> T>(samples: &[i32], bits: u16, scale: &S) -> (r: Vec<T>)
    requires
        samples_fit(samples@, bits),
        forall|sample: i32, full: i64| #[trigger] scale.requires((sample, full)),
    ensures
        are_scaled(samples@, bits, *scale, r@),
        forall|full: i64, i: int|
            2 * full == pow2(bits as nat) && 0 <= i < samples@.len() ==> #[trigger] scale.ensures(
                (samples@[i], full),
                r@[i],
            ),
{
    let mut scaled: Vec<T> = Vec::new();
    for i in 0..samples.len()
        invariant
            samples_fit(samples@, bits),
            forall|sample: i32, full: i64| #[trigger] scale.requires((sample, full)),
            scaled@.len() == i,
            forall|k: int|
                0 <= k < i ==> scale.ensures(
                    (samples@[k], pow2((bits - 1) as nat) as i64),
                    #[trigger] scaled@[k],
                ),
    {
        assert(sample_fits(samples@[i as int], bits));
        let full: i64 = full_scale(bits);
        scaled.push(scale(samples[i], full));
    }
    proof {
        assert forall|full: i64, i: int|
            2 * full == pow2(bits as nat) && 0 <= i < samples@.len() implies #[trigger] scale.ensures(
            (samples@[i], full),
            scaled@[i],
        ) by {
            assert(sample_fits(samples@[i], bits));
            lemma_full_scale(bits, full);
        }
    }
    scaled
}

/// `r` is the signal `mono` at the rate `target_sr`: the signal itself where that is its
/// rate, and what `resample` makes of it otherwise.
pub open spec fn is_at_rate<T, E, R: Fn(&[T], u32, u32) -> Result<Vec<T>, E>>(
    mono: Seq<T>,
    sample_rate: u32,
    target_sr: u32,
    resample: R,
    r: Result<Vec<T>, E>,
) -> bool {
    if sample_rate == target_sr {
        r matches Ok(samples) && samples@ == mono
    } else {
        exists|samples: &[T]| #[trigger]
            resample.ensures((samples, sample_rate, target_sr), r) && samples@ == mono
    }
}

/// Bring a signal to the rate `target_sr`.
pub fn at_rate<T, E, R: Fn(&[T], u32, u32) -> Result<Vec<T>, E>>(
    mono: Vec<T>,
    sample_rate: u32,
    target_sr: u32,
    resample: &R,
) -> (r: Result<Vec<T>, E>)
    requires
        sample_rate != target_sr ==> forall|samples: &[T]| #[trigger]
            resample.requires((samples, sample_rate, target_sr)),
    ensures
        is_at_rate(mono@, sample_rate, target_sr, *resample, r),
{
    if sample_rate == target_sr {
        Ok(mono)
    } else {
        let samples: &[T] = mono.as_slice();
        let r: Result<Vec<T>, E> = resample(samples, sample_rate, target_sr);
        assert(resample.ensures((samples, sample_rate, target_sr), r));
        r
    }
}

/// `r` is the signal that integer samples stand for: scaled, mixed down, and brought to the
/// rate `target_sr`, or the error of doing so.
pub open spec fn is_signal<
    T,
    E,
    S: Fn(i32, i64) -> T,
    A: Fn(&[T]) -> T,
    R: Fn(&[T], u32, u32) -> Result<Vec<T>, E>,
>(
    samples: Seq<i32>,
    channels: u16,
    sample_rate: u32,
    bits: u16,
    target_sr: u32,
    scale: S,
    average: A,
    resample: R,
    r: Result<WavSignal<T>, ReadError<E>>,
) -> bool {
    exists|mono: Seq<T>, out: Result<Vec<T>, E>|
        {
            &&& #[trigger] is_scaled_mono(samples, channels, bits, scale, average, mono)
            &&& #[trigger] is_at_rate(mono, sample_rate, target_sr, resample, out)
            &&& match out {
                Ok(v) => r matches Ok(WavSignal::Mono(m)) && m@ == v@,
                Err(e) => r matches Err(ReadError::Resample(x)) && x == e,
            }
        }
}

/// `r` is the signal in WAV data, at the rate `target_sr`.
pub open spec fn is_read<
    T,
    E,
    S: Fn(i32, i64) -> T,
    A: Fn(&[T]) -> T,
    R: Fn(&[T], u32, u32) -> Result<Vec<T>, E>,
>(
    bytes: Seq<u8>,
    target_sr: u32,
    scale: S,
    average: A,
    resample: R,
    r: Result<WavSignal<T>, ReadError<E>>,
) -> bool {
    match parsed_header(bytes) {
        None => r matches Err(ReadError::Wav(WavError::Header(_))),
        Some(header) => if header.3 {
            r matches Ok(WavSignal::Float(h)) && h.fields() == header
        } else {
            match parsed_samples(bytes) {
                None => r matches Err(ReadError::Wav(WavError::Sample(_))),
                Some(samples) => is_signal(
                    samples,
                    header.0,
                    header.1,
                    header.2,
                    target_sr,
                    scale,
                    average,
                    resample,
                    r,
                ),
            }
        },
    }
}

/// Read the signal in WAV data: scale its integer samples, mix them down to one channel, and
/// bring the signal to the rate `target_sr`.
pub fn read_wav<
    T: Copy,
    E,
    S: Fn(i32, i64) -> T,
    A: Fn(&[T]) -> T,
    R: Fn(&[T], u32, u32) -> Result<Vec<T>, E>,
>(bytes: &[u8], target_sr: u32, scale: &S, average: &A, resample: &R) -> (r: Result<
    WavSignal<T>,
    ReadError<E>,
>)
    requires
        forall|sample: i32, full: i64| #[trigger] scale.requires((sample, full)),
        forall|group: &[T]| #[trigger] average.requires((group,)),
        forall|samples: &[T], sample_rate: u32|
            sample_rate != target_sr ==> #[trigger] resample.requires(
                (samples, sample_rate, target_sr),
            ),
    ensures
        is_read(bytes@, target_sr, *scale, *average, *resample, r),
        r matches Ok(WavSignal::Float(h)) ==> h.channels >= 1 && h.bits_per_sample >= 1,
{
    let (header, samples): (WavHeader, Vec<i32>) = match decode_wav(bytes) {
        Err(error) => return Err(ReadError::Wav(error)),
        Ok(WavAudio::Float(header)) => return Ok(WavSignal::Float(header)),
        Ok(WavAudio::Int(header, samples)) => (header, samples),
    };
    assert(parsed_header(bytes@) == Some(header.fields()) && !header.float);
    assert(parsed_samples(bytes@) == Some(samples@));
    let bits: u16 = header.bits_per_sample;
    let scaled: Vec<T> = scale_samples(samples.as_slice(), bits, scale);
    let mono: Vec<T> = to_mono(scaled.as_slice(), header.channels, average);
    assert(is_scaled_mono(samples@, header.channels, bits, *scale, *average, mono@));
    let ghost signal = mono@;
    let out: Result<Vec<T>, E> = at_rate(mono, header.sample_rate, target_sr, resample);
    assert(is_at_rate(signal, header.sample_rate, target_sr, *resample, out));
    let r: Result<WavSignal<T>, ReadError<E>> = match out {
        Ok(v) => Ok(WavSignal::Mono(v)),
        Err(error) => Err(ReadError::Resample(error)),
    };
    assert(is_signal(
        samples@,
        header.channels,
        header.sample_rate,
        bits,
        target_sr,
        *scale,
        *average,
        *resample,
        r,
    ));
    r
}

// ── Laws ──────────────────────────────────────────────────────────────

/// What was written comes back: reading data that holds `samples` gives one channel of 16
/// bits at the same sample rate, and the samples.
pub proof fn law_written_wav_is_read_back(
    bytes: Seq<u8>,
    samples: Seq<i16>,
    sample_rate: u32,
    r: Result<WavAudio, WavError>,
)
    requires
        reads_back(bytes, samples, sample_rate),
        is_decoded(bytes, r),
    ensures
        r matches Ok(WavAudio::Int(header, read)) && {
            &&& header == (WavHeader { channels: 1, sample_rate, bits_per_sample: 16, float: false })
            &&& read@.len() == samples.len()
            &&& forall|i: int| 0 <= i < samples.len() ==> #[trigger] read@[i] == samples[i]
        },
{
}

/// `after` is what `scale` makes, at 16 bits, of what `quantize` makes of `before`.
pub open spec fn goes_through<T, Q: Fn(T) -> i16, S: Fn(i32, i64) -> T>(
    quantize: Q,
    scale: S,
    before: T,
    after: T,
) -> bool {
    exists|q: i16| #[trigger]
        quantize.ensures((before,), q) && scale.ensures((q as i32, 32768), after)
}

/// A saved signal is read back at its own rate, sample by sample: each is what `scale` makes
/// of what `quantize` made of the sample.
pub proof fn law_saved_signal_is_read_back<
    T,
    E,
    Q: Fn(T) -> i16,
    S: Fn(i32, i64) -> T,
    A: Fn(&[T]) -> T,
    R: Fn(&[T], u32, u32) -> Result<Vec<T>, E>,
>(
    samples: Seq<T>,
    sample_rate: u32,
    quantize: Q,
    bytes: Seq<u8>,
    scale: S,
    average: A,
    resample: R,
    r: Result<WavSignal<T>, ReadError<E>>,
)
    requires
        is_saved(samples, sample_rate, quantize, bytes),
        is_read(bytes, sample_rate, scale, average, resample, r),
    ensures
        r matches Ok(WavSignal::Mono(read)) && {
            &&& read@.len() == samples.len()
            &&& forall|i: int|
                0 <= i < samples.len() ==> goes_through(
                    quantize,
                    scale,
                    samples[i],
                    #[trigger] read@[i],
                )
        },
{
    let quantized = choose|quantized: Seq<i16>|
        {
            &&& #[trigger] are_quantized(samples, quantize, quantized)
            &&& bytes == wav_bytes(quantized, sample_rate)
            &&& reads_back(bytes, quantized, sample_rate)
        };
    let wide = quantized.map_values(|s: i16| s as i32);
    assert(is_signal(wide, 1, sample_rate, 16, sample_rate, scale, average, resample, r));
    let (mono, out) = choose|mono: Seq<T>, out: Result<Vec<T>, E>|
        {
            &&& #[trigger] is_scaled_mono(wide, 1, 16, scale, average, mono)
            &&& #[trigger] is_at_rate(mono, sample_rate, sample_rate, resample, out)
            &&& match out {
                Ok(v) => r matches Ok(WavSignal::Mono(m)) && m@ == v@,
                Err(e) => r matches Err(ReadError::Resample(x)) && x == e,
            }
        };
    let scaled = choose|scaled: Seq<T>| #[trigger]
        are_scaled(wide, 16, scale, scaled) && is_mono(scaled, 1, average, mono);
    lemma2_to64();
    let read = r->Ok_0->Mono_0@;
    assert(read == scaled);
    assert forall|i: int| 0 <= i < samples.len() implies goes_through(
        quantize,
        scale,
        samples[i],
        #[trigger] read[i],
    ) by {
        assert(quantize.ensures((samples[i],), quantized[i]));
        assert(scale.ensures((wide[i], pow2(15) as i64), scaled[i]));
    }
}

/// The value of a float in units of 2^-149, held between minus one and one.
pub open spec fn held_units(sample: Binary32) -> int {
    let one = pow2(149) as int;
    if sample.units() > one {
        one
    } else if sample.units() < -one {
        -one
    } else {
        sample.units()
    }
}

/// `q` is 32767 times the sample, held between minus one and one, cut to an integer: off by
/// no more than one, and a hundredth for the rounding of the product.
pub open spec fn is_quantized_to(sample: Binary32, q: i16) -> bool {
    let off = q * pow2(149) - 32767 * held_units(sample);
    -101 * pow2(149) <= 100 * off <= 101 * pow2(149)
}

/// The value of `after` is `q` divided by 32768.
pub open spec fn is_scaled_from(q: i16, after: Binary32) -> bool {
    !after.spec_is_nan() && 32768 * after.units() == q * pow2(149)
}

/// A signal without a NaN comes back from WAV data as it was written, held between minus
/// one and one, to within one part in ten thousand: as many samples, each as close.
pub proof fn law_saved_samples_come_back_close<
    E,
    Q: Fn(Binary32) -> i16,
    S: Fn(i32, i64) -> Binary32,
    A: Fn(&[Binary32]) -> Binary32,
    R: Fn(&[Binary32], u32, u32) -> Result<Vec<Binary32>, E>,
>(
    samples: Seq<Binary32>,
    sample_rate: u32,
    quantize: Q,
    bytes: Seq<u8>,
    scale: S,
    average: A,
    resample: R,
    r: Result<WavSignal<Binary32>, ReadError<E>>,
)
    requires
        forall|i: int| 0 <= i < samples.len() ==> !(#[trigger] samples[i]).spec_is_nan(),
        is_saved(samples, sample_rate, quantize, bytes),
        is_read(bytes, sample_rate, scale, average, resample, r),
        forall|sample: Binary32, q: i16|
            !sample.spec_is_nan() && #[trigger] quantize.ensures((sample,), q) ==> is_quantized_to(
                sample,
                q,
            ),
        forall|q: i16, after: Binary32| #[trigger]
            scale.ensures((q as i32, 32768), after) ==> is_scaled_from(q, after),
    ensures
        r matches Ok(WavSignal::Mono(read)) && {
            &&& read@.len() == samples.len()
            &&& forall|i: int|
                0 <= i < samples.len() ==> {
                    &&& !(#[trigger] read@[i]).spec_is_nan()
                    &&& -pow2(149) <= 10000 * (read@[i].units() - held_units(samples[i]))
                        <= pow2(149)
                }
        },
{
    law_saved_signal_is_read_back(
        samples,
        sample_rate,
        quantize,
        bytes,
        scale,
        average,
        resample,
        r,
    );
    let read = r->Ok_0->Mono_0@;
    assert forall|i: int| 0 <= i < samples.len() implies {
        &&& !(#[trigger] read[i]).spec_is_nan()
        &&& -pow2(149) <= 10000 * (read[i].units() - held_units(samples[i])) <= pow2(149)
    } by {
        assert(goes_through(quantize, scale, samples[i], read[i]));
        let q = choose|q: i16| #[trigger]
            quantize.ensures((samples[i],), q) && scale.ensures((q as i32, 32768), read[i]);
        assert(is_quantized_to(samples[i], q));
        assert(is_scaled_from(q, read[i]));
        let held = held_units(samples[i]);
        lemma_pow2_pos(149);
        assert(-pow2(149) <= held <= pow2(149));
    }
}

/// Samples that were read lie between minus full scale and full scale.
pub proof fn law_samples_within_scale(samples: Seq<i32>, bits: u16, scale: i64, i: int)
    requires
        samples_fit(samples, bits),
        0 <= i < samples.len(),
        scale == pow2((bits - 1) as nat),
    ensures
        scale > 0,
        -scale <= samples[i] < scale,
{
    assert(sample_fits(samples[i], bits));
    lemma_pow2_pos((bits - 1) as nat);
}

/// Samples that come as many for each channel fall into whole groups.
pub proof fn law_groups_are_whole(len: int, channels: int, k: int)
    requires
        channels > 0,
        len >= 0,
        len % channels == 0,
        0 <= k < group_count(len, channels),
    ensures
        group_count(len, channels) * channels == len,
        group_end(k, len, channels) == (k + 1) * channels,
{
    let n = len / channels;
    lemma_fundamental_div_mod(len, channels);
    assert(len == n * channels) by (nonlinear_arith)
        requires
            len == channels * n + 0,
    ;
    lemma_fundamental_div_mod_converse(len + channels - 1, channels, n, channels - 1);
    assert((k + 1) * channels <= n * channels) by (nonlinear_arith)
        requires
            k + 1 <= n,
            channels > 0,
    ;
}

/// Samples of a depth are scaled by half the number of values that the depth has, which is
/// one more than its largest sample; it is the same for every sample.
pub proof fn law_scaled_by_full_scale<T, S: Fn(i32, i64) -> T>(
    samples: Seq<i32>,
    bits: u16,
    scale: S,
    scaled: Seq<T>,
    full: i64,
)
    requires
        1 <= bits <= 32,
        are_scaled(samples, bits, scale, scaled),
        2 * full == pow2(bits as nat),
    ensures
        scaled.len() == samples.len(),
        forall|s: i32| #[trigger] sample_fits(s, bits) <==> -full <= s <= full - 1,
        forall|i: int|
            0 <= i < samples.len() ==> scale.ensures((samples[i], full), #[trigger] scaled[i]),
{
    lemma_full_scale(bits, full);
}

proof fn lemma_full_scale(bits: u16, full: i64)
    requires
        1 <= bits <= 32,
        2 * full == pow2(bits as nat),
    ensures
        full == pow2((bits - 1) as nat),
        full == pow2((bits - 1) as nat) as i64,
        full >= 1,
{
    lemma_pow2_unfold(bits as nat);
    lemma_pow2_pos((bits - 1) as nat);
}

/// A file of one channel that is at the rate asked for is read sample by sample, whatever
/// its depth: each sample is scaled by half the number of values that the depth has.
pub proof fn law_mono_file_is_read_whole<
    T,
    E,
    S: Fn(i32, i64) -> T,
    A: Fn(&[T]) -> T,
    R: Fn(&[T], u32, u32) -> Result<Vec<T>, E>,
>(
    bytes: Seq<u8>,
    samples: Seq<i32>,
    bits: u16,
    target_sr: u32,
    full: i64,
    scale: S,
    average: A,
    resample: R,
    r: Result<WavSignal<T>, ReadError<E>>,
)
    requires
        1 <= bits <= 32,
        2 * full == pow2(bits as nat),
        parsed_header(bytes) == Some((1u16, target_sr, bits, false)),
        parsed_samples(bytes) == Some(samples),
        is_read(bytes, target_sr, scale, average, resample, r),
    ensures
        r matches Ok(WavSignal::Mono(read)) && {
            &&& read@.len() == samples.len()
            &&& forall|i: int|
                0 <= i < samples.len() ==> scale.ensures((samples[i], full), #[trigger] read@[i])
        },
{
    assert(is_signal(samples, 1, target_sr, bits, target_sr, scale, average, resample, r));
    let (mono, out) = choose|mono: Seq<T>, out: Result<Vec<T>, E>|
        {
            &&& #[trigger] is_scaled_mono(samples, 1, bits, scale, average, mono)
            &&& #[trigger] is_at_rate(mono, target_sr, target_sr, resample, out)
            &&& match out {
                Ok(v) => r matches Ok(WavSignal::Mono(m)) && m@ == v@,
                Err(e) => r matches Err(ReadError::Resample(x)) && x == e,
            }
        };
    let scaled = choose|scaled: Seq<T>| #[trigger]
        are_scaled(samples, bits, scale, scaled) && is_mono(scaled, 1, average, mono);
    lemma_full_scale(bits, full);
    assert(r->Ok_0->Mono_0@ == scaled);
}

/// Files of one channel at any two depths that hold the same levels read the same, where
/// scaling depends on nothing but the ratio of a sample to full scale: so the most negative
/// sample of every depth, which is full scale itself, comes out alike.
pub proof fn law_depth_does_not_matter<
    T,
    E,
    S: Fn(i32, i64) -> T,
    A: Fn(&[T]) -> T,
    R: Fn(&[T], u32, u32) -> Result<Vec<T>, E>,
>(
    bytes_a: Seq<u8>,
    bytes_b: Seq<u8>,
    a: Seq<i32>,
    b: Seq<i32>,
    bits_a: u16,
    bits_b: u16,
    target_sr: u32,
    scale: S,
    average: A,
    resample: R,
    read_a: Result<WavSignal<T>, ReadError<E>>,
    read_b: Result<WavSignal<T>, ReadError<E>>,
    i: int,
)
    requires
        1 <= bits_a <= 32,
        1 <= bits_b <= 32,
        parsed_header(bytes_a) == Some((1u16, target_sr, bits_a, false)),
        parsed_header(bytes_b) == Some((1u16, target_sr, bits_b, false)),
        parsed_samples(bytes_a) == Some(a),
        parsed_samples(bytes_b) == Some(b),
        is_read(bytes_a, target_sr, scale, average, resample, read_a),
        is_read(bytes_b, target_sr, scale, average, resample, read_b),
        forall|s: i32, t: i32, f: i64, g: i64, x: T, y: T|
            s * g == t * f && #[trigger] scale.ensures((s, f), x) && #[trigger] scale.ensures(
                (t, g),
                y,
            ) ==> x == y,
        0 <= i < a.len(),
        i < b.len(),
        a[i] * pow2(bits_b as nat) == b[i] * pow2(bits_a as nat),
    ensures
        read_a->Ok_0->Mono_0@[i] == read_b->Ok_0->Mono_0@[i],
{
    lemma2_to64();
    lemma_pow2_unfold(bits_a as nat);
    lemma_pow2_unfold(bits_b as nat);
    lemma_pow2_pos((bits_a - 1) as nat);
    lemma_pow2_pos((bits_b - 1) as nat);
    if bits_a < 32 {
        lemma_pow2_strictly_increases((bits_a - 1) as nat, 31);
    }
    if bits_b < 32 {
        lemma_pow2_strictly_increases((bits_b - 1) as nat, 31);
    }
    let full_a = pow2((bits_a - 1) as nat) as i64;
    let full_b = pow2((bits_b - 1) as nat) as i64;
    law_mono_file_is_read_whole(
        bytes_a,
        a,
        bits_a,
        target_sr,
        full_a,
        scale,
        average,
        resample,
        read_a,
    );
    law_mono_file_is_read_whole(
        bytes_b,
        b,
        bits_b,
        target_sr,
        full_b,
        scale,
        average,
        resample,
        read_b,
    );
    let x = read_a->Ok_0->Mono_0@[i];
    let y = read_b->Ok_0->Mono_0@[i];
    assert(a[i] * full_b == b[i] * full_a) by (nonlinear_arith)
        requires
            a[i] * pow2(bits_b as nat) == b[i] * pow2(bits_a as nat),
            pow2(bits_a as nat) == 2 * full_a,
            pow2(bits_b as nat) == 2 * full_b,
    ;
    assert(scale.ensures((a[i], full_a), x));
    assert(scale.ensures((b[i], full_b), y));
}

/// Mixing down takes the samples of all channels at one time together: sample `k` is the
/// average of the group that starts at `k` times the number of channels, and every sample
/// is in one group.
pub proof fn law_mono_takes_groups<T, F: Fn(&[T]) -> T>(
    samples: Seq<T>,
    channels: u16,
    average: F,
    mono: Seq<T>,
    k: int,
)
    requires
        channels >= 2,
        is_mono(samples, channels, average, mono),
        0 <= k < mono.len(),
    ensures
        (mono.len() - 1) * channels < samples.len() <= mono.len() * channels,
        (k + 1) * channels <= samples.len() ==> crate::frames::measures(
            average,
            samples.subrange(k * channels, k * channels + channels),
            mono[k],
        ),
        (k + 1) * channels > samples.len() ==> k == mono.len() - 1 && crate::frames::measures(
            average,
            samples.skip(k * channels),
            mono[k],
        ),
{
    let len = samples.len() as int;
    let n = channels as int;
    lemma_fundamental_div_mod(len + n - 1, n);
    let m = mono.len() as int;
    assert((m - 1) * n < len <= m * n) by (nonlinear_arith)
        requires
            len + n - 1 == n * m + (len + n - 1) % n,
            0 <= (len + n - 1) % n < n,
    ;
    assert((k + 1) * n == k * n + n) by (nonlinear_arith);
    if (k + 1) * n > len && k < m - 1 {
        assert((k + 1) * n <= (m - 1) * n) by (nonlinear_arith)
            requires
                k + 1 <= m - 1,
                n > 0,
        ;
    }
    assert(k * n <= (m - 1) * n) by (nonlinear_arith)
        requires
            k <= m - 1,
            n > 0,
    ;
    if (k + 1) * n > len {
        assert(0 <= k * n) by (nonlinear_arith)
            requires
                k >= 0,
                n > 0,
        ;
        assert(samples.subrange(k * n, len) =~= samples.skip(k * n));
    }
}

/// Channels that all hold one signal are mixed down to that signal, where the average of
/// equal samples is that sample.
pub proof fn law_equal_channels_mix_to_one<T, F: Fn(&[T]) -> T>(
    signal: Seq<T>,
    samples: Seq<T>,
    channels: u16,
    average: F,
    mono: Seq<T>,
)
    requires
        channels >= 1,
        samples.len() == signal.len() * channels,
        forall|k: int, c: int|
            0 <= k < signal.len() && 0 <= c < channels ==> #[trigger] samples[k * channels + c]
                == signal[k],
        forall|group: &[T], y: T|
            group@.len() > 0 && (forall|i: int|
                0 <= i < group@.len() ==> #[trigger] group@[i] == group@[0])
                && #[trigger] average.ensures((group,), y) ==> y == group@[0],
        is_mono(samples, channels, average, mono),
    ensures
        mono == signal,
{
    let n = channels as int;
    let len = samples.len() as int;
    if channels == 1 {
        assert forall|k: int| 0 <= k < signal.len() implies samples[k] == signal[k] by {
            assert(samples[k * 1 + 0] == signal[k]);
        }
        assert(samples =~= signal);
    } else {
        lemma_fundamental_div_mod_converse(len + n - 1, n, signal.len() as int, n - 1);
        assert(mono.len() == signal.len());
        assert forall|k: int| 0 <= k < signal.len() implies mono[k] == signal[k] by {
            law_mono_takes_groups(samples, channels, average, mono, k);
            assert((k + 1) * n <= len) by (nonlinear_arith)
                requires
                    k + 1 <= signal.len(),
                    len == signal.len() * n,
                    n > 0,
            ;
            assert(k * n >= 0) by (nonlinear_arith)
                requires
                    k >= 0,
                    n > 0,
            ;
            assert((k + 1) * n == k * n + n) by (nonlinear_arith);
            let part = samples.subrange(k * n, k * n + n);
            let group = choose|group: &[T]| #[trigger]
                average.ensures((group,), mono[k]) && group@ == part;
            assert forall|i: int| 0 <= i < group@.len() implies #[trigger] group@[i]
                == signal[k] by {
                assert(samples[k * n + i] == signal[k]);
            }
            assert(group@[0] == signal[k]);
        }
        assert(mono =~= signal);
    }
}

/// Data at another rate than the one asked for goes through `resample`, which is told the
/// rate that the data has and then the one asked for; what it answers is the answer.
pub proof fn law_other_rate_is_resampled<
    T,
    E,
    S: Fn(i32, i64) -> T,
    A: Fn(&[T]) -> T,
    R: Fn(&[T], u32, u32) -> Result<Vec<T>, E>,
>(
    bytes: Seq<u8>,
    samples: Seq<i32>,
    channels: u16,
    sample_rate: u32,
    bits: u16,
    target_sr: u32,
    scale: S,
    average: A,
    resample: R,
    r: Result<WavSignal<T>, ReadError<E>>,
)
    requires
        parsed_header(bytes) == Some((channels, sample_rate, bits, false)),
        parsed_samples(bytes) == Some(samples),
        sample_rate != target_sr,
        is_read(bytes, target_sr, scale, average, resample, r),
    ensures
        exists|mono: &[T], out: Result<Vec<T>, E>|
            {
                &&& #[trigger] resample.ensures((mono, sample_rate, target_sr), out)
                &&& is_scaled_mono(samples, channels, bits, scale, average, mono@)
                &&& out matches Ok(v) ==> r matches Ok(WavSignal::Mono(m)) && m@ == v@
                &&& out matches Err(e) ==> r == Err::<WavSignal<T>, ReadError<E>>(
                    ReadError::Resample(e),
                )
            },
{
    assert(is_signal(
        samples,
        channels,
        sample_rate,
        bits,
        target_sr,
        scale,
        average,
        resample,
        r,
    ));
    let (mono, out) = choose|mono: Seq<T>, out: Result<Vec<T>, E>|
        {
            &&& #[trigger] is_scaled_mono(samples, channels, bits, scale, average, mono)
            &&& #[trigger] is_at_rate(mono, sample_rate, target_sr, resample, out)
            &&& match out {
                Ok(v) => r matches Ok(WavSignal::Mono(m)) && m@ == v@,
                Err(e) => r matches Err(ReadError::Resample(x)) && x == e,
            }
        };
    let slice = choose|slice: &[T]| #[trigger]
        resample.ensures((slice, sample_rate, target_sr), out) && slice@ == mono;
    assert(resample.ensures((slice, sample_rate, target_sr), out));
}

/// Reading data and reading the signal in it agree on what cannot be read: both fail on
/// the same data, on its header or on its samples, and both give the header of data whose
/// samples are floats.
pub proof fn law_reading_agrees<
    T,
    E,
    S: Fn(i32, i64) -> T,
    A: Fn(&[T]) -> T,
    R: Fn(&[T], u32, u32) -> Result<Vec<T>, E>,
>(
    bytes: Seq<u8>,
    target_sr: u32,
    scale: S,
    average: A,
    resample: R,
    audio: Result<WavAudio, WavError>,
    signal: Result<WavSignal<T>, ReadError<E>>,
)
    requires
        is_decoded(bytes, audio),
        is_read(bytes, target_sr, scale, average, resample, signal),
    ensures
        parsed_header(bytes) is None <==> audio matches Err(WavError::Header(_)),
        audio matches Err(WavError::Header(_)) <==> signal matches Err(
            ReadError::Wav(WavError::Header(_)),
        ),
        audio matches Err(WavError::Sample(_)) <==> signal matches Err(
            ReadError::Wav(WavError::Sample(_)),
        ),
        audio matches Ok(WavAudio::Float(_)) <==> signal matches Ok(WavSignal::Float(_)),
        audio matches Ok(WavAudio::Float(a)) ==> signal matches Ok(WavSignal::Float(b)) && a == b
            && a.float && parsed_header(bytes) == Some(
            (a.channels, a.sample_rate, a.bits_per_sample, true),
        ),
        audio matches Ok(WavAudio::Int(a, s)) ==> !a.float && parsed_samples(bytes) == Some(s@)
            && parsed_header(bytes) == Some((a.channels, a.sample_rate, a.bits_per_sample, false)),
{
    if let Some(header) = parsed_header(bytes) {
        if !header.3 {
            if let Some(samples) = parsed_samples(bytes) {
                assert(is_signal(
                    samples,
                    header.0,
                    header.1,
                    header.2,
                    target_sr,
                    scale,
                    average,
                    resample,
                    signal,
                ));
            }
        }
    }
}

/// Written data is a header of 44 bytes and two bytes for each sample. Read with the lower
/// byte first, the header says how many bytes follow it and how many are samples, that
/// there is one channel of 16 bits, the sample rate, and how many bytes there are for each
/// second and for each sample.
#[verifier::rlimit(50)]
pub proof fn law_written_header(samples: Seq<i16>, sample_rate: u32)
    requires
        size_fits(samples.len() as int, sample_rate as int),
    ensures
        ({
            let b = wav_bytes(samples, sample_rate);
            &&& b.len() == 44 + 2 * samples.len()
            &&& b[4] + 0x100 * b[5] + 0x1_0000 * b[6] + 0x100_0000 * b[7] == b.len() - 8
            &&& b[20] + 0x100 * b[21] == 1
            &&& b[22] + 0x100 * b[23] == 1
            &&& b[24] + 0x100 * b[25] + 0x1_0000 * b[26] + 0x100_0000 * b[27] == sample_rate
            &&& b[28] + 0x100 * b[29] + 0x1_0000 * b[30] + 0x100_0000 * b[31] == 2 * sample_rate
            &&& b[32] + 0x100 * b[33] == 2
            &&& b[34] + 0x100 * b[35] == 16
            &&& b[40] + 0x100 * b[41] + 0x1_0000 * b[42] + 0x100_0000 * b[43] == b.len() - 44
        }),
{
    lemma_written_places(samples, sample_rate);
    lemma_header_numbers(
        wav_bytes(samples, sample_rate),
        2 * samples.len() as int,
        sample_rate as int,
    );
}

/// What the bytes of the header at these places amount to.
proof fn lemma_header_numbers(b: Seq<u8>, size: int, sample_rate: int)
    requires
        0 <= size,
        size + 36 <= u32::MAX,
        0 <= 2 * sample_rate <= u32::MAX,
        forall|k: int| 0 <= k < 4 ==> b[4 + k] == #[trigger] le32(36 + size)[k],
        b[20] == le16(1)[0] && b[21] == le16(1)[1],
        b[22] == le16(1)[0] && b[23] == le16(1)[1],
        forall|k: int| 0 <= k < 4 ==> b[24 + k] == #[trigger] le32(sample_rate)[k],
        forall|k: int| 0 <= k < 4 ==> b[28 + k] == #[trigger] le32(2 * sample_rate)[k],
        b[32] == le16(2)[0] && b[33] == le16(2)[1],
        b[34] == le16(16)[0] && b[35] == le16(16)[1],
        forall|k: int| 0 <= k < 4 ==> b[40 + k] == #[trigger] le32(size)[k],
    ensures
        b[4] + 0x100 * b[5] + 0x1_0000 * b[6] + 0x100_0000 * b[7] == size + 36,
        b[20] + 0x100 * b[21] == 1,
        b[22] + 0x100 * b[23] == 1,
        b[24] + 0x100 * b[25] + 0x1_0000 * b[26] + 0x100_0000 * b[27] == sample_rate,
        b[28] + 0x100 * b[29] + 0x1_0000 * b[30] + 0x100_0000 * b[31] == 2 * sample_rate,
        b[32] + 0x100 * b[33] == 2,
        b[34] + 0x100 * b[35] == 16,
        b[40] + 0x100 * b[41] + 0x1_0000 * b[42] + 0x100_0000 * b[43] == size,
{
    lemma_le32(36 + size);
    lemma_le32(sample_rate);
    lemma_le32(2 * sample_rate);
    lemma_le32(size);
}

/// Behind the header of 44 bytes stands each sample in two bytes, the lower one first, in
/// two's complement.
#[verifier::rlimit(50)]
pub proof fn law_written_samples(samples: Seq<i16>, sample_rate: u32, i: int)
    requires
        0 <= i < samples.len(),
    ensures
        ({
            let b = wav_bytes(samples, sample_rate);
            let pair = b[44 + 2 * i] + 0x100 * b[45 + 2 * i];
            samples[i] == if pair < 0x8000 {
                pair
            } else {
                pair - 0x1_0000
            }
        }),
{
    lemma_sample_places(samples, sample_rate, 2 * i);
    lemma_sample_places(samples, sample_rate, 2 * i + 1);
    lemma_sample_pair(samples, i);
}

proof fn lemma_sample_pair(samples: Seq<i16>, i: int)
    requires
        0 <= i < samples.len(),
    ensures
        ({
            let pair = sample_bytes(samples)[2 * i] + 0x100 * sample_bytes(samples)[2 * i + 1];
            samples[i] == if pair < 0x8000 {
                pair
            } else {
                pair - 0x1_0000
            }
        }),
{
    assert((2 * i) / 2 == i && (2 * i + 1) / 2 == i && (2 * i) % 2 == 0 && (2 * i + 1) % 2 == 1);
}

proof fn lemma_sample_places(samples: Seq<i16>, sample_rate: u32, j: int)
    requires
        0 <= j < 2 * samples.len(),
    ensures
        wav_bytes(samples, sample_rate)[44 + j] == sample_bytes(samples)[j],
{
    lemma_written_places(samples, sample_rate);
    assert(wav_bytes(samples, sample_rate).skip(44)[j] == sample_bytes(samples)[j]);
}

#[verifier::rlimit(50)]
proof fn lemma_written_places(samples: Seq<i16>, sample_rate: u32)
    ensures
        ({
            let b = wav_bytes(samples, sample_rate);
            let size = 2 * samples.len() as int;
            &&& b.len() == 44 + size
            &&& forall|k: int| 0 <= k < 4 ==> b[4 + k] == #[trigger] le32(36 + size)[k]
            &&& b[20] == le16(1)[0] && b[21] == le16(1)[1]
            &&& b[22] == le16(1)[0] && b[23] == le16(1)[1]
            &&& forall|k: int| 0 <= k < 4 ==> b[24 + k] == #[trigger] le32(sample_rate as int)[k]
            &&& forall|k: int| 0 <= k < 4 ==> b[28 + k] == #[trigger] le32(2 * sample_rate)[k]
            &&& b[32] == le16(2)[0] && b[33] == le16(2)[1]
            &&& b[34] == le16(16)[0] && b[35] == le16(16)[1]
            &&& forall|k: int| 0 <= k < 4 ==> b[40 + k] == #[trigger] le32(size)[k]
            &&& b.skip(44) == sample_bytes(samples)
        }),
{
    let b = wav_bytes(samples, sample_rate);
    assert(b.skip(44) =~= sample_bytes(samples));
}

proof fn lemma_le32(x: int)
    requires
        0 <= x <= u32::MAX,
    ensures
        le32(x).len() == 4,
        le32(x)[0] + 0x100 * le32(x)[1] + 0x1_0000 * le32(x)[2] + 0x100_0000 * le32(x)[3] == x,
{
}

} // verus!
