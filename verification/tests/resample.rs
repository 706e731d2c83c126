use audio_prep::error::AudioError;
use audio_prep::resample::{
    audio_resample, finish_resample, output_floor, output_limit, ratio_is_supported,
    ConverterReport, Interpolation, ResampleStep, SincPlan, Window,
};
use rubato::Resampler;

fn bits(samples: &[f32]) -> Vec<u32> {
    samples.iter().map(|s| s.to_bits()).collect()
}

fn plan(len: usize, from: u32, to: u32) -> SincPlan {
    match audio_resample(&vec![0u32; len], from, to, 1) {
        Ok(ResampleStep::Convert(plan)) => plan,
        other => panic!("no plan: {:?}", other),
    }
}

fn convert(plan: &SincPlan, input: &[f32]) -> ConverterReport {
    let params = rubato::SincInterpolationParameters {
        sinc_len: plan.sinc_len,
        f_cutoff: plan.cutoff_percent as f32 / 100.0,
        interpolation: rubato::SincInterpolationType::Linear,
        oversampling_factor: plan.oversampling_factor,
        window: rubato::WindowFunction::BlackmanHarris2,
    };
    let made = rubato::SincFixedIn::<f32>::new(
        plan.to_rate as f64 / plan.from_rate as f64,
        plan.max_ratio_relative as f64,
        params,
        plan.chunk_size,
        plan.channels,
    );
    let mut converter = match made {
        Ok(converter) => converter,
        Err(_) => return ConverterReport::ConstructionFailed,
    };
    match converter.process(&[input.to_vec()], None) {
        Ok(waves) => ConverterReport::Converted(waves.iter().map(|w| bits(w)).collect()),
        Err(_) => ConverterReport::ProcessingFailed,
    }
}

#[test]
fn zero_rate_is_a_config_error() {
    let input = bits(&[0.1, 0.2]);
    assert_eq!(audio_resample(&input, 0, 16000, 1), Err(AudioError::ConfigError));
    assert_eq!(audio_resample(&input, 16000, 0, 1), Err(AudioError::ConfigError));
    assert_eq!(audio_resample(&input, 0, 0, 1), Err(AudioError::ConfigError));
}

#[test]
fn equal_rates_copy_the_input() {
    let input = bits(&[0.25, -0.5, 1.0, -1.0, 0.0]);
    for rate in [1u32, 8000, 16000, 44100, 48000, u32::MAX] {
        assert_eq!(audio_resample(&input, rate, rate, 1), Ok(ResampleStep::Copy(input.clone())));
    }
}

#[test]
fn silence_at_equal_rates_stays_silence() {
    let input = bits(&[0.0; 100]);
    match audio_resample(&input, 16000, 16000, 1) {
        Ok(ResampleStep::Copy(out)) => {
            assert_eq!(out.len(), 100);
            assert!(out.iter().all(|s| f32::from_bits(*s) == 0.0));
        }
        other => panic!("unexpected: {:?}", other),
    }
}

#[test]
fn different_rates_give_the_fixed_plan() {
    let input = bits(&[0.0; 480]);
    let expected = SincPlan {
        from_rate: 32000,
        to_rate: 16000,
        chunk_size: 480,
        channels: 1,
        sinc_len: 256,
        oversampling_factor: 256,
        cutoff_percent: 95,
        max_ratio_relative: 2,
        interpolation: Interpolation::Linear,
        window: Window::BlackmanHarris2,
    };
    assert_eq!(audio_resample(&input, 32000, 16000, 2), Ok(ResampleStep::Convert(expected)));
}

#[test]
fn channel_count_is_not_used() {
    let input = bits(&[0.5; 64]);
    assert_eq!(audio_resample(&input, 8000, 16000, 0), audio_resample(&input, 8000, 16000, 7));
}

#[test]
fn ratio_beyond_two_is_a_config_error() {
    let input = bits(&[0.1, 0.2, 0.3]);
    for (from, to) in [
        (16000u32, 48000u32),
        (48000, 16000),
        (44100, 16000),
        (8000, 44100),
        (1, 3),
        (3, 1),
        (1, u32::MAX),
        (u32::MAX, 1),
        (0x7fff_ffff, u32::MAX),
        (16000, 32001),
        (32001, 16000),
    ] {
        assert!(!ratio_is_supported(from, to));
        assert_eq!(audio_resample(&input, from, to, 1), Err(AudioError::ConfigError));
    }
}

#[test]
fn ratio_up_to_two_is_planned() {
    let input = bits(&[0.1, 0.2, 0.3]);
    for (from, to) in [
        (16000u32, 32000u32),
        (32000, 16000),
        (1, 2),
        (2, 1),
        (44100, 48000),
        (48000, 44100),
        (22050, 16000),
        (0x8000_0000, u32::MAX),
        (u32::MAX, 0x8000_0000),
    ] {
        assert!(ratio_is_supported(from, to));
        match audio_resample(&input, from, to, 1) {
            Ok(ResampleStep::Convert(plan)) => {
                assert_eq!((plan.from_rate, plan.to_rate, plan.chunk_size), (from, to, 3));
            }
            other => panic!("unexpected: {:?}", other),
        }
    }
    assert!(ratio_is_supported(7, 7));
    assert!(!ratio_is_supported(0, 0));
    assert!(!ratio_is_supported(0, 1));
    assert!(!ratio_is_supported(1, 0));
}

#[test]
fn output_limit_is_the_scaled_length_and_the_margin() {
    assert_eq!(output_limit(&plan(1000, 16000, 32000)), Some(2010));
    assert_eq!(output_limit(&plan(1000, 32000, 16000)), Some(510));
    assert_eq!(output_limit(&plan(0, 44100, 22050)), Some(10));
    assert_eq!(output_limit(&plan(44100, 44100, 22050)), Some(22060));
    assert_eq!(output_limit(&plan(1001, 3, 2)), Some(677));
    let mut broken = plan(10, 8000, 16000);
    broken.from_rate = 0;
    assert_eq!(output_limit(&broken), None);
}

#[test]
fn output_floor_allows_for_the_filter_window_and_the_margin() {
    assert_eq!(output_floor(&plan(1000, 16000, 32000)), Some(1474));
    assert_eq!(output_floor(&plan(1000, 44100, 48000)), Some(798));
    assert_eq!(output_floor(&plan(1000, 32000, 16000)), Some(361));
    assert_eq!(output_floor(&plan(258, 16000, 32000)), Some(0));
    assert_eq!(output_floor(&plan(263, 16000, 32000)), Some(0));
    assert_eq!(output_floor(&plan(264, 16000, 32000)), Some(2));
    assert_eq!(output_floor(&plan(0, 16000, 32000)), Some(0));
    let mut broken = plan(10, 8000, 16000);
    broken.from_rate = 0;
    assert_eq!(output_floor(&broken), None);
}

#[test]
fn failures_of_the_converter_are_told_apart() {
    let p = plan(100, 8000, 16000);
    assert_eq!(finish_resample(&p, ConverterReport::ConstructionFailed), Err(AudioError::ConfigError));
    assert_eq!(finish_resample(&p, ConverterReport::ProcessingFailed), Err(AudioError::ProcessingFailure));
}

#[test]
fn first_channel_is_the_result() {
    let p = plan(4, 8000, 16000);
    let report = ConverterReport::Converted(vec![vec![1, 2, 3], vec![4, 5]]);
    assert_eq!(finish_resample(&p, report), Ok(vec![1, 2, 3]));
}

#[test]
fn no_channel_gives_an_empty_buffer() {
    let p = plan(4, 8000, 16000);
    assert_eq!(finish_resample(&p, ConverterReport::Converted(vec![])), Ok(vec![]));
    assert_eq!(finish_resample(&p, ConverterReport::Converted(vec![vec![]])), Ok(vec![]));
}

#[test]
fn overlong_output_is_a_processing_failure() {
    let p = plan(10, 8000, 16000);
    let at_limit = ConverterReport::Converted(vec![vec![0; 30]]);
    assert_eq!(finish_resample(&p, at_limit).map(|v| v.len()), Ok(30));
    let beyond = ConverterReport::Converted(vec![vec![0; 31]]);
    assert_eq!(finish_resample(&p, beyond), Err(AudioError::ProcessingFailure));
}

#[test]
fn overshort_output_is_a_processing_failure() {
    let p = plan(1000, 8000, 16000);
    let at_floor = ConverterReport::Converted(vec![vec![0; 1474]]);
    assert_eq!(finish_resample(&p, at_floor).map(|v| v.len()), Ok(1474));
    let below = ConverterReport::Converted(vec![vec![0; 1473]]);
    assert_eq!(finish_resample(&p, below), Err(AudioError::ProcessingFailure));
    let none = ConverterReport::Converted(vec![]);
    assert_eq!(finish_resample(&p, none), Ok(vec![]));
}

#[test]
fn plan_with_an_unsupported_ratio_is_refused() {
    let mut p = plan(10, 8000, 16000);
    p.to_rate = 16001;
    assert_eq!(finish_resample(&p, ConverterReport::Converted(vec![vec![0; 3]])), Err(AudioError::ConfigError));
    p.to_rate = 0;
    assert_eq!(finish_resample(&p, ConverterReport::Converted(vec![vec![0; 3]])), Err(AudioError::ConfigError));
}

#[test]
fn plan_with_a_zero_rate_is_refused() {
    let mut p = plan(10, 8000, 16000);
    p.from_rate = 0;
    assert_eq!(finish_resample(&p, ConverterReport::Converted(vec![vec![0; 3]])), Err(AudioError::ConfigError));
}

#[test]
fn converter_output_stays_within_the_accepted_lengths() {
    for (from, to) in [
        (16000u32, 32000u32),
        (32000, 16000),
        (44100, 48000),
        (48000, 44100),
        (44100, 22050),
        (8000, 11025),
        (22050, 16000),
        (1, 2),
        (2, 1),
        (3, 2),
        (48000, 24001),
        (24001, 48000),
        (96000, 88200),
    ] {
        for len in [0usize, 1, 100, 258, 259, 300, 400, 1000, 5000, 20000] {
            let input: Vec<f32> = (0..len).map(|i| (i as f32 * 0.05).sin() * 0.5).collect();
            let p = plan(len, from, to);
            let out = finish_resample(&p, convert(&p, &input)).unwrap();
            assert!(out.len() as u128 <= output_limit(&p).unwrap());
            assert!(out.len() as u128 >= output_floor(&p).unwrap());
            assert!(out.len() <= 2 * len + 10);
            let k = to as f64 / from as f64;
            assert!(out.len() as f64 <= len as f64 * k + 10.0);
            assert!(out.len() as f64 >= (len as f64 - 258.0) * k - 10.0);
        }
    }
}

#[test]
fn short_input_converts_to_an_empty_buffer() {
    let p = plan(100, 16000, 8000);
    let out = finish_resample(&p, convert(&p, &[0.0; 100])).unwrap();
    assert!(out.is_empty());
}

#[test]
fn long_input_converts_to_about_the_scaled_length() {
    let len = 16000usize;
    let input: Vec<f32> = (0..len).map(|i| (i as f32 * 0.01).sin() * 0.25).collect();
    let p = plan(len, 16000, 32000);
    let out = finish_resample(&p, convert(&p, &input)).unwrap();
    assert!(out.len() >= 2 * (len - 258) - 10);
    assert!(out.len() <= 2 * len + 10);
    assert!(out.iter().all(|s| f32::from_bits(*s).abs() <= 0.3));
}
