use audio_prep::channels::stereo_to_mono;
use audio_prep::error::AudioError;

fn bits(samples: &[f32]) -> Vec<u32> {
    samples.iter().map(|s| s.to_bits()).collect()
}

fn floats(samples: &[u32]) -> Vec<f32> {
    samples.iter().map(|s| f32::from_bits(*s)).collect()
}

#[test]
fn stereo_frames_average_to_mono() {
    let input = bits(&[1.0, 0.5, -1.0, -0.5]);
    let mono = stereo_to_mono(&input).unwrap();
    assert_eq!(floats(&mono), vec![0.75, -0.75]);
}

#[test]
fn odd_length_is_invalid_input() {
    let input = bits(&[0.1, 0.2, 0.3]);
    assert_eq!(stereo_to_mono(&input), Err(AudioError::InvalidInput));
    assert_eq!(stereo_to_mono(&bits(&[0.5])), Err(AudioError::InvalidInput));
}

#[test]
fn empty_buffer_gives_empty_mono() {
    assert_eq!(stereo_to_mono(&[]), Ok(Vec::new()));
}

#[test]
fn mono_has_half_the_length_and_the_mean_of_each_frame() {
    let mut input: Vec<f32> = Vec::new();
    for i in 0..1000 {
        input.push((i as f32 * 0.37).sin());
        input.push((i as f32 * 0.11).cos() * 0.8);
    }
    let mono = floats(&stereo_to_mono(&bits(&input)).unwrap());
    assert_eq!(mono.len(), input.len() / 2);
    for i in 0..mono.len() {
        assert_eq!(mono[i], (input[2 * i] + input[2 * i + 1]) / 2.0);
    }
}
