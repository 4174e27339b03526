use zimtohrli::config::{new_zimtohrli, ZimtohrliError, ZimtohrliWrapper};
use zimtohrli::limits::{num_channels, sample_rate};
use zimtohrli::loudness::{level_centidb, FULL_SCALE_SINE_LEVEL};
use zimtohrli::nsim::PPM;
use zimtohrli::spectrogram::{new_spectrogram, SpectrogramWrapper};

fn sine(freq: f64, amplitude: f64, len: usize) -> Vec<i16> {
    (0..len)
        .map(|i| {
            let t = i as f64 / 48000.0;
            (amplitude * 32767.0 * (2.0 * std::f64::consts::PI * freq * t).sin()).round() as i16
        })
        .collect()
}

fn noise(seed: u64, amplitude: i32, len: usize) -> Vec<i32> {
    let mut state = seed;
    (0..len)
        .map(|_| {
            state = state.wrapping_mul(6364136223846793005).wrapping_add(1442695040888963407);
            let r = ((state >> 33) % 2001) as i32 - 1000;
            r * amplitude / 1000
        })
        .collect()
}

fn mix(a: &[i16], b: &[i32]) -> Vec<i16> {
    a.iter()
        .zip(b)
        .map(|(&x, &y)| (x as i32 + y).clamp(-32768, 32767) as i16)
        .collect()
}

fn dist(z: &ZimtohrliWrapper, a: &[i16], b: &[i16]) -> u64 {
    let mut sa = z.analyze(a);
    let mut sb = z.analyze(b);
    z.distance(&mut sa, &mut sb).unwrap()
}

#[test]
fn test_constants() {
    assert_eq!(sample_rate() as f32, 48000.0);
    assert_eq!(num_channels(), 128);
}

#[test]
fn test_create_zimtohrli() {
    let z = new_zimtohrli();
    assert_eq!(z.nsim_step_window(), 8);
    assert_eq!(z.nsim_channel_window(), 5);
}

#[test]
fn test_spectrogram_steps() {
    let z = new_zimtohrli();
    let steps = z.spectrogram_steps(48000);
    assert!(steps > 0);
}

#[test]
fn test_analyze_silence() {
    let z = new_zimtohrli();
    let samples: Vec<i16> = vec![0; 4800];
    let spec = z.analyze(&samples);
    assert!(spec.num_steps() > 0);
    assert_eq!(spec.num_dims(), 128);
}

#[test]
fn test_distance_identical() {
    let z = new_zimtohrli();
    let samples: Vec<i16> = vec![0; 4800];
    let mut spec_a = z.analyze(&samples);
    let mut spec_b = z.analyze(&samples);
    let distance = z.distance(&mut spec_a, &mut spec_b).unwrap() as f64 / PPM as f64;
    assert!((0.0..=1.0).contains(&distance));
}

#[test]
fn defaults_of_new_analyzer() {
    let z = new_zimtohrli();
    assert_eq!(z.perceptual_sample_rate(), 85000);
    assert_eq!(z.full_scale_sine_db(), 783);
}

#[test]
fn steps_exact_values() {
    let z = new_zimtohrli();
    assert_eq!(z.spectrogram_steps(0), 0);
    assert_eq!(z.spectrogram_steps(1), 0);
    assert_eq!(z.spectrogram_steps(48000), 85);
    assert_eq!(z.spectrogram_steps(4800), 9);
    assert_eq!(z.spectrogram_steps(96000), 170);
}

#[test]
fn steps_never_decrease() {
    let z = new_zimtohrli();
    let mut last = 0;
    for n in (0..200_000).step_by(97) {
        let s = z.spectrogram_steps(n);
        assert!(s >= last);
        last = s;
    }
}

#[test]
fn analysis_shape() {
    let z = new_zimtohrli();
    let s = sine(440.0, 0.5, 12000);
    let spec = z.analyze(&s);
    assert_eq!(spec.num_dims(), num_channels());
    assert_eq!(spec.num_steps(), z.spectrogram_steps(12000));
    assert_eq!(spec.size(), spec.num_steps() * spec.num_dims());
    assert_eq!(spec.values().len(), spec.size());
    assert!(spec.max() > 0);
}

#[test]
fn one_second_of_silence() {
    let z = new_zimtohrli();
    let samples: Vec<i16> = vec![0; 48000];
    let mut a = z.analyze(&samples);
    let mut b = z.analyze(&samples);
    assert_eq!(a.max(), 0);
    assert_eq!(b.max(), 0);
    assert_eq!(z.distance(&mut a, &mut b), Ok(0));
}

#[test]
fn self_distance_is_zero() {
    let z = new_zimtohrli();
    let s = sine(1000.0, 0.3, 24000);
    let d = dist(&z, &s, &s);
    assert_eq!(d, 0);
    assert!(d < PPM / 20);
}

#[test]
fn distance_within_range() {
    let z = new_zimtohrli();
    let a = sine(300.0, 0.5, 24000);
    let b = sine(3000.0, 0.2, 20000);
    let d = dist(&z, &a, &b);
    assert!(d <= PPM);
    assert!(d > 0);
}

#[test]
fn silence_against_sound_is_far() {
    let z = new_zimtohrli();
    let a: Vec<i16> = vec![0; 24000];
    let b = sine(500.0, 0.8, 24000);
    let d = dist(&z, &a, &b);
    assert!(d > 0);
    assert!(d <= PPM);
}

#[test]
fn more_noise_is_not_closer() {
    let z = new_zimtohrli();
    let clean = sine(440.0, 0.3, 24000);
    let small = mix(&clean, &noise(7, 200, 24000));
    let large = mix(&clean, &noise(7, 20000, 24000));
    let d_small = dist(&z, &clean, &small);
    let d_large = dist(&z, &clean, &large);
    assert!(d_small <= d_large);
}

#[test]
fn rescale_scales_the_maximum() {
    let values: Vec<u16> = (0..256).map(|i| (i * 7 % 1000) as u16).collect();
    let mut spec = SpectrogramWrapper::from_values(2, 128, values.clone()).unwrap();
    let before = spec.max();
    assert_eq!(before, 994);
    spec.rescale(3, 1);
    assert_eq!(spec.max(), 2982);
    spec.rescale(1, 3);
    assert_eq!(spec.max(), 994);
    spec.rescale(1, 1);
    assert_eq!(spec.values(), &values[..]);
    spec.rescale(200, 1);
    assert_eq!(spec.max(), 65535);
}

#[test]
fn mismatched_channels_are_refused() {
    let z = new_zimtohrli();
    let mut a = z.analyze(&sine(440.0, 0.5, 4800));
    let mut b = SpectrogramWrapper::from_values(3, 64, vec![5; 192]).unwrap();
    let a_before = a.values().to_vec();
    assert_eq!(z.distance(&mut a, &mut b), Err(ZimtohrliError::InvalidInput));
    assert_eq!(a.values(), &a_before[..]);
    assert_eq!(b.values(), &vec![5u16; 192][..]);
}

#[test]
fn empty_signal_is_maximally_distant() {
    let z = new_zimtohrli();
    let mut a = z.analyze(&[]);
    assert_eq!(a.num_steps(), 0);
    assert_eq!(a.size(), 0);
    let mut b = z.analyze(&vec![0i16; 4800]);
    assert_eq!(z.distance(&mut a, &mut b), Ok(PPM));
}

#[test]
fn window_setters_are_validated() {
    let mut z = new_zimtohrli();
    assert_eq!(z.set_nsim_step_window(0), Err(ZimtohrliError::ConfigurationError));
    assert_eq!(z.nsim_step_window(), 8);
    assert_eq!(z.set_nsim_step_window(65), Ok(()));
    assert_eq!(z.nsim_step_window(), 65);
    assert_eq!(z.nsim_channel_window(), 5);
    assert_eq!(z.set_nsim_channel_window(0), Err(ZimtohrliError::ConfigurationError));
    assert_eq!(z.nsim_channel_window(), 5);
    assert_eq!(z.set_nsim_channel_window(129), Ok(()));
    assert_eq!(z.nsim_channel_window(), 129);
    assert_eq!(z.nsim_step_window(), 65);
}

#[test]
fn windows_wider_than_the_grid_are_clipped() {
    let mut z = new_zimtohrli();
    assert_eq!(z.set_nsim_step_window(100000), Ok(()));
    assert_eq!(z.set_nsim_channel_window(1000), Ok(()));
    let a = sine(440.0, 0.5, 9600);
    let b = sine(2000.0, 0.5, 9600);
    assert_eq!(dist(&z, &a, &a), 0);
    let d = dist(&z, &a, &b);
    assert!(d > 0 && d <= PPM);
}

#[test]
fn common_rescale_keeps_analysed_levels_apart() {
    let z = new_zimtohrli();
    let mut spec = z.analyze(&sine(1000.0, 0.5, 9600));
    let before = spec.values().to_vec();
    spec.rescale(1, 3);
    let after = spec.values();
    for i in 0..before.len() {
        for j in 0..before.len() {
            if before[i] >= before[j] + 3 {
                assert!(after[i] > after[j]);
            }
        }
    }
}

#[test]
fn from_values_checks_the_shape() {
    assert!(SpectrogramWrapper::from_values(2, 128, vec![0; 255]).is_none());
    assert!(SpectrogramWrapper::from_values(2, 0, vec![]).is_none());
    let s = SpectrogramWrapper::from_values(0, 128, vec![]).unwrap();
    assert_eq!(s.num_steps(), 0);
    assert_eq!(s.max(), 0);
}

#[test]
fn new_spectrogram_is_zero() {
    let s = new_spectrogram(3);
    assert_eq!(s.num_steps(), 3);
    assert_eq!(s.num_dims(), 128);
    assert_eq!(s.size(), 384);
    assert_eq!(s.max(), 0);
    assert_eq!(s.get(2, 127), 0);
}

#[test]
fn values_mut_writes_through() {
    let mut s = new_spectrogram(2);
    {
        let v = s.values_mut();
        assert_eq!(v.len(), 256);
        v[128 + 5] = 42;
    }
    assert_eq!(s.get(1, 5), 42);
    assert_eq!(s.max(), 42);
    assert_eq!(s.size(), 256);
}

#[test]
fn level_of_known_mean_squares() {
    assert_eq!(level_centidb(1), 0);
    assert_eq!(level_centidb(2), 301);
    assert_eq!(level_centidb(3), 451);
    assert_eq!(level_centidb(1024), 3010);
    assert_eq!(level_centidb(536838144), FULL_SCALE_SINE_LEVEL);
    assert_eq!(FULL_SCALE_SINE_LEVEL, 8728);
}

#[test]
fn louder_sine_reads_higher() {
    let z = new_zimtohrli();
    let quiet = z.analyze(&sine(1000.0, 0.01, 9600));
    let loud = z.analyze(&sine(1000.0, 1.0, 9600));
    assert!(loud.max() > quiet.max());
    assert!(loud.max() <= 9000);
}
