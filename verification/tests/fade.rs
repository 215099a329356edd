use soundz::audio::AudioBuffer;
use soundz::ops::fade::{fade_in, fade_out, FadeError};

fn make_buf(frames: usize, sr: u32) -> AudioBuffer<f32> {
    AudioBuffer {
        samples: vec![vec![1.0f32; frames]; 1],
        sample_rate: sr,
        channels: 1,
    }
}

fn frames_for(secs: f64, sr: u32) -> usize {
    (secs * sr as f64).round() as usize
}

fn rise(s: f32, i: usize, n: usize) -> f32 {
    s * (i as f32 / n as f32)
}

fn fall(s: f32, i: usize, n: usize) -> f32 {
    s * (1.0 - (i as f32 / n as f32))
}

#[test]
fn fade_in_starts_near_zero() {
    let mut buf = make_buf(100, 100);
    fade_in(&mut buf, frames_for(1.0, 100), rise).unwrap();
    assert!(buf.samples[0][0].abs() < 1e-6);
}

#[test]
fn fade_in_end_near_one() {
    let mut buf = make_buf(100, 100);
    fade_in(&mut buf, frames_for(1.0, 100), rise).unwrap();
    assert!((buf.samples[0][99] - 99.0 / 100.0).abs() < 1e-5);
}

#[test]
fn fade_out_ends_near_zero() {
    let mut buf = make_buf(100, 100);
    fade_out(&mut buf, frames_for(1.0, 100), fall).unwrap();
    assert!(buf.samples[0][99].abs() < 0.02);
}

#[test]
fn fade_in_too_long() {
    let mut buf = make_buf(10, 10);
    assert!(fade_in(&mut buf, frames_for(2.0, 10), rise).is_err());
}

#[test]
fn fade_out_too_long() {
    let mut buf = make_buf(10, 10);
    assert!(fade_out(&mut buf, frames_for(2.0, 10), fall).is_err());
}

#[test]
fn fade_in_touches_only_the_window() {
    let mut buf = make_buf(10, 10);
    fade_in(&mut buf, 4, rise).unwrap();
    assert_eq!(buf.samples[0], vec![0.0, 0.25, 0.5, 0.75, 1.0, 1.0, 1.0, 1.0, 1.0, 1.0]);
}

#[test]
fn fade_out_touches_only_the_tail() {
    let mut buf = make_buf(6, 10);
    fade_out(&mut buf, 2, fall).unwrap();
    assert_eq!(buf.samples[0], vec![1.0, 1.0, 1.0, 1.0, 1.0, 0.5]);
}

#[test]
fn fade_refused_leaves_buffer_alone() {
    let mut buf = make_buf(3, 10);
    assert_eq!(fade_in(&mut buf, 4, rise), Err(FadeError::TooLong));
    assert_eq!(buf.samples[0], vec![1.0, 1.0, 1.0]);
    assert_eq!(fade_out(&mut buf, 4, fall), Err(FadeError::TooLong));
    assert_eq!(buf.samples[0], vec![1.0, 1.0, 1.0]);
}

#[test]
fn fade_of_whole_length_is_accepted() {
    let mut buf = make_buf(4, 10);
    assert!(fade_in(&mut buf, 4, rise).is_ok());
    let mut buf = make_buf(4, 10);
    assert!(fade_out(&mut buf, 4, fall).is_ok());
    assert_eq!(buf.samples[0], vec![1.0, 0.75, 0.5, 0.25]);
}

#[test]
fn fade_applies_to_every_channel() {
    let mut buf = AudioBuffer {
        samples: vec![vec![2.0f32; 4], vec![4.0f32; 4]],
        sample_rate: 4,
        channels: 2,
    };
    fade_in(&mut buf, 2, rise).unwrap();
    assert_eq!(buf.samples[0], vec![0.0, 1.0, 2.0, 2.0]);
    assert_eq!(buf.samples[1], vec![0.0, 2.0, 4.0, 4.0]);
}

#[test]
fn fade_out_runs_to_the_end_of_longer_channels() {
    let mut buf = AudioBuffer {
        samples: vec![vec![1.0f32; 4], vec![1.0f32; 5]],
        sample_rate: 4,
        channels: 2,
    };
    fade_out(&mut buf, 2, |s: f32, i: usize, _n: usize| s * i as f32).unwrap();
    assert_eq!(buf.samples[0], vec![1.0, 1.0, 0.0, 1.0]);
    assert_eq!(buf.samples[1], vec![1.0, 1.0, 0.0, 1.0, 2.0]);
}
