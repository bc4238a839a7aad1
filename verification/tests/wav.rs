use hifisampler_core::wav::{
    at_rate, decode_wav, encode_wav, full_scale, read_wav, save_wav, scale_samples, to_mono,
    ReadError, WavAudio, WavError, WavHeader, WavSignal,
};
use std::io::Cursor;

fn int_wav(channels: u16, bits: u16, samples: &[i32]) -> Vec<u8> {
    let spec = hound::WavSpec {
        channels,
        sample_rate: 22050,
        bits_per_sample: bits,
        sample_format: hound::SampleFormat::Int,
    };
    let mut bytes = Cursor::new(Vec::new());
    let mut writer = hound::WavWriter::new(&mut bytes, spec).unwrap();
    for &s in samples {
        writer.write_sample(s).unwrap();
    }
    writer.finalize().unwrap();
    bytes.into_inner()
}

#[test]
fn integer_data_is_read() {
    for (bits, samples) in [
        (8u16, [-128, 127, 0, 5]),
        (16, [-32768, 32767, 0, 5]),
        (24, [-8388608, 8388607, 0, 5]),
        (32, [i32::MIN, i32::MAX, 0, 5]),
    ] {
        match decode_wav(&int_wav(2, bits, &samples)) {
            Ok(WavAudio::Int(header, read)) => {
                assert_eq!(header.channels, 2);
                assert_eq!(header.sample_rate, 22050);
                assert_eq!(header.bits_per_sample, bits);
                assert!(!header.float);
                assert_eq!(read, samples.to_vec());
                let scale = full_scale(bits);
                assert!(read.iter().all(|&s| -scale <= s as i64 && (s as i64) < scale));
            }
            other => panic!("{:?}", other),
        }
    }
}

#[test]
fn float_data_gives_its_header() {
    let spec = hound::WavSpec {
        channels: 1,
        sample_rate: 48000,
        bits_per_sample: 32,
        sample_format: hound::SampleFormat::Float,
    };
    let mut bytes = Cursor::new(Vec::new());
    let mut writer = hound::WavWriter::new(&mut bytes, spec).unwrap();
    writer.write_sample(0.5f32).unwrap();
    writer.finalize().unwrap();
    let bytes = bytes.into_inner();
    assert!(matches!(
        read_wav(&bytes, 48000, &scale, &average, &resample),
        Ok(WavSignal::Float(_))
    ));
    match decode_wav(&bytes) {
        Ok(WavAudio::Float(header)) => assert_eq!(
            header,
            WavHeader { channels: 1, sample_rate: 48000, bits_per_sample: 32, float: true }
        ),
        other => panic!("{:?}", other),
    }
}

#[test]
fn other_data_has_no_header() {
    assert!(matches!(decode_wav(&[]), Err(WavError::Header(_))));
    assert!(matches!(decode_wav(b"RIFFxxxxJUNK"), Err(WavError::Header(_))));
}

#[test]
fn truncated_data_lacks_a_sample() {
    let mut bytes = int_wav(1, 16, &[1, 2, 3]);
    bytes.pop();
    assert!(matches!(decode_wav(&bytes), Err(WavError::Sample(_))));
}

#[test]
fn written_data_is_read_back() {
    for samples in [vec![], vec![0i16], vec![i16::MIN, -1, 0, 1, i16::MAX]] {
        let bytes = encode_wav(&samples, 44100).unwrap();
        assert_eq!(bytes.len(), 44 + 2 * samples.len());
        match decode_wav(&bytes) {
            Ok(WavAudio::Int(header, read)) => {
                assert_eq!(
                    header,
                    WavHeader {
                        channels: 1,
                        sample_rate: 44100,
                        bits_per_sample: 16,
                        float: false,
                    }
                );
                let expected: Vec<i32> = samples.iter().map(|&s| s as i32).collect();
                assert_eq!(read, expected);
            }
            other => panic!("{:?}", other),
        }
    }
}

#[test]
fn written_data_is_what_a_writer_of_files_writes() {
    let samples = [5i16, -7, 300];
    let wide: Vec<i32> = samples.iter().map(|&s| s as i32).collect();
    assert_eq!(encode_wav(&samples, 22050).unwrap(), int_wav(1, 16, &wide));
}

#[test]
fn written_bytes() {
    assert_eq!(
        encode_wav(&[1, -2], 44100).unwrap(),
        vec![
            b'R', b'I', b'F', b'F', 40, 0, 0, 0, b'W', b'A', b'V', b'E', b'f', b'm', b't', b' ',
            16, 0, 0, 0, 1, 0, 1, 0, 0x44, 0xac, 0, 0, 0x88, 0x58, 1, 0, 2, 0, 16, 0, b'd', b'a',
            b't', b'a', 4, 0, 0, 0, 1, 0, 0xfe, 0xff,
        ]
    );
}

fn quantize(s: f32) -> i16 {
    (s.clamp(-1.0, 1.0) * 32767.0) as i16
}

fn scale(sample: i32, full: i64) -> f32 {
    sample as f32 / full as f32
}

fn average(group: &[f32]) -> f32 {
    group.iter().sum::<f32>() / group.len() as f32
}

/// A stand-in for resampling, which fails for one rate.
fn resample(mono: &[f32], from: u32, to: u32) -> Result<Vec<f32>, String> {
    if to == 1 {
        return Err(format!("{from} to {to}"));
    }
    let mut out = mono.to_vec();
    out.push(from as f32);
    out.push(to as f32);
    Ok(out)
}

#[test]
fn signals_are_brought_to_a_rate() {
    assert_eq!(at_rate(vec![0.5], 44100, 44100, &resample), Ok(vec![0.5]));
    assert_eq!(at_rate(vec![0.5], 1, 1, &resample), Ok(vec![0.5]));
    assert_eq!(at_rate(vec![0.5], 22050, 44100, &resample), Ok(vec![0.5, 22050.0, 44100.0]));
    assert_eq!(at_rate(vec![0.5], 22050, 1, &resample), Err("22050 to 1".to_string()));
}

#[test]
fn samples_are_scaled_by_full_scale() {
    let pair = |sample: i32, full: i64| (sample, full);
    assert_eq!(scale_samples(&[1, -2], 8, &pair), vec![(1, 128), (-2, 128)]);
    assert_eq!(scale_samples(&[], 99, &pair), vec![]);
}

#[test]
fn saved_samples_are_quantized() {
    let samples = [0.0, 0.5, -0.5, 1.0, -1.0, 2.0, -3.0];
    let bytes = save_wav(&samples, 44100, &quantize).unwrap();
    match decode_wav(&bytes) {
        Ok(WavAudio::Int(header, read)) => {
            assert_eq!(
                header,
                WavHeader { channels: 1, sample_rate: 44100, bits_per_sample: 16, float: false }
            );
            assert_eq!(read, vec![0, 16383, -16383, 32767, -32767, 32767, -32767]);
        }
        other => panic!("{:?}", other),
    }
}

#[test]
fn saved_signals_are_read_back_close() {
    let samples: Vec<f32> = (-1100..=1100).map(|i| i as f32 / 1000.0).collect();
    let bytes = save_wav(&samples, 8000, &quantize).unwrap();
    match read_wav(&bytes, 8000, &scale, &average, &resample) {
        Ok(WavSignal::Mono(read)) => {
            assert_eq!(read.len(), samples.len());
            for (r, s) in read.iter().zip(&samples) {
                assert!((r - s.clamp(-1.0, 1.0)).abs() <= 1e-4);
            }
        }
        other => panic!("{:?}", other),
    }
}

#[test]
fn signals_are_scaled_and_mixed_down() {
    let bytes = int_wav(2, 16, &[16384, 0, -32768, -16384]);
    match read_wav(&bytes, 22050, &scale, &average, &resample) {
        Ok(WavSignal::Mono(read)) => assert_eq!(read, vec![0.25, -0.75]),
        other => panic!("{:?}", other),
    }
    match read_wav(&bytes, 44100, &scale, &average, &resample) {
        Ok(WavSignal::Mono(read)) => assert_eq!(read, vec![0.25, -0.75, 22050.0, 44100.0]),
        other => panic!("{:?}", other),
    }
    match read_wav(&int_wav(1, 8, &[]), 22050, &scale, &average, &resample) {
        Ok(WavSignal::Mono(read)) => assert_eq!(read, Vec::<f32>::new()),
        other => panic!("{:?}", other),
    }
}

#[test]
fn unreadable_signals() {
    assert!(matches!(
        read_wav(&[], 22050, &scale, &average, &resample),
        Err(ReadError::Wav(WavError::Header(_)))
    ));
    let mut bytes = int_wav(1, 16, &[1, 2, 3]);
    assert!(matches!(
        read_wav(&bytes, 1, &scale, &average, &resample),
        Err(ReadError::Resample(_))
    ));
    bytes.pop();
    assert!(matches!(
        read_wav(&bytes, 22050, &scale, &average, &resample),
        Err(ReadError::Wav(WavError::Sample(_)))
    ));
}

#[test]
fn full_scale_is_a_power_of_two() {
    assert_eq!(full_scale(1), 1);
    assert_eq!(full_scale(8), 128);
    assert_eq!(full_scale(16), 32768);
    assert_eq!(full_scale(24), 8388608);
    assert_eq!(full_scale(32), 2147483648);
    for bits in 1..=64u16 {
        assert_eq!(full_scale(bits), 1i64 << (bits - 1));
    }
}

#[test]
fn channels_are_averaged() {
    let average = |group: &[i32]| group.iter().sum::<i32>() / group.len() as i32;
    assert_eq!(to_mono(&[1, 3, 10, 20], 2, &average), vec![2, 15]);
    assert_eq!(to_mono(&[1, 2, 3], 1, &average), vec![1, 2, 3]);
    assert_eq!(to_mono(&[], 2, &average), Vec::<i32>::new());
}

#[test]
fn last_group_may_be_short() {
    let count = |group: &[usize]| group.len();
    assert_eq!(to_mono(&[0; 7], 3, &count), vec![3, 3, 1]);
    assert_eq!(to_mono(&[0; 6], 3, &count), vec![3, 3]);
}
