use soundz::audio::AudioBuffer;
use soundz::ops::trim::trim;

fn buf() -> AudioBuffer<i32> {
    AudioBuffer { samples: vec![vec![0, 1, 2, 3, 4], vec![5, 6, 7, 8, 9]], sample_rate: 5, channels: 2 }
}

#[test]
fn trim_keeps_the_range_of_every_channel() {
    let mut b = buf();
    trim(&mut b, 1, 3);
    assert_eq!(b.samples, vec![vec![1, 2], vec![6, 7]]);
    assert_eq!(b.num_frames(), 2);
    assert_eq!(b.sample_rate, 5);
    assert_eq!(b.channels, 2);
}

#[test]
fn trim_end_is_clamped_to_the_audio() {
    let mut b = buf();
    trim(&mut b, 3, 400);
    assert_eq!(b.samples, vec![vec![3, 4], vec![8, 9]]);
}

#[test]
fn trim_to_empty_range() {
    let mut b = buf();
    trim(&mut b, 5, 9);
    assert_eq!(b.samples, vec![Vec::<i32>::new(), vec![]]);
}
