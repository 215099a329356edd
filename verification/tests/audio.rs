use soundz::audio::{interleave, push_interleaved, AudioBuffer, DecodeError};

fn stereo() -> AudioBuffer<i32> {
    AudioBuffer { samples: vec![vec![1, 2, 3], vec![4, 5, 6]], sample_rate: 8000, channels: 2 }
}

#[test]
fn num_frames_is_first_channel_length() {
    assert_eq!(stereo().num_frames(), 3);
    let empty: AudioBuffer<i32> = AudioBuffer { samples: vec![], sample_rate: 8000, channels: 0 };
    assert_eq!(empty.num_frames(), 0);
    let ragged = AudioBuffer { samples: vec![vec![1], vec![1, 2, 3]], sample_rate: 1, channels: 2 };
    assert_eq!(ragged.num_frames(), 1);
}

#[test]
fn interleave_orders_frame_by_frame() {
    assert_eq!(interleave(&stereo()), vec![1, 4, 2, 5, 3, 6]);
}

#[test]
fn interleave_uses_the_declared_channel_count() {
    let mut buf = stereo();
    buf.channels = 1;
    assert_eq!(interleave(&buf), vec![1, 2, 3]);
    buf.channels = 0;
    assert_eq!(interleave(&buf), Vec::<i32>::new());
}

#[test]
fn interleave_ignores_samples_past_the_first_channel() {
    let buf = AudioBuffer { samples: vec![vec![1, 2], vec![3, 4, 5]], sample_rate: 1, channels: 2 };
    assert_eq!(interleave(&buf), vec![1, 3, 2, 4]);
}

#[test]
fn push_interleaved_splits_round_robin() {
    let mut chans: Vec<Vec<i32>> = vec![Vec::new(); 2];
    push_interleaved(&mut chans, &[1, 4, 2, 5, 3, 6], 2);
    assert_eq!(chans, vec![vec![1, 2, 3], vec![4, 5, 6]]);
    push_interleaved(&mut chans, &[7, 8, 9], 2);
    assert_eq!(chans, vec![vec![1, 2, 3, 7, 9], vec![4, 5, 6, 8]]);
}

#[test]
fn push_interleaved_with_fewer_stream_channels() {
    let mut chans: Vec<Vec<i32>> = vec![Vec::new(); 3];
    push_interleaved(&mut chans, &[1, 2, 3, 4], 2);
    assert_eq!(chans, vec![vec![1, 3], vec![2, 4], vec![]]);
}

#[test]
fn push_interleaved_short_stream_over_many_channels() {
    let mut chans: Vec<Vec<i32>> = vec![Vec::new(); 2];
    push_interleaved(&mut chans, &[1, 2], 5);
    assert_eq!(chans, vec![vec![1], vec![2]]);
    push_interleaved(&mut chans, &[], 0);
    assert_eq!(chans, vec![vec![1], vec![2]]);
}

#[test]
fn interleave_then_split_round_trip() {
    let buf = stereo();
    let stream = interleave(&buf);
    let mut chans: Vec<Vec<i32>> = vec![Vec::new(); 2];
    push_interleaved(&mut chans, &stream, 2);
    assert_eq!(chans, buf.samples);
}

#[test]
fn from_decoded_refuses_silent_audio() {
    let r = AudioBuffer::<f32>::from_decoded(vec![vec![], vec![]], 44100, 2);
    assert!(matches!(r, Err(DecodeError::EmptyAudio)));
    let r = AudioBuffer::<f32>::from_decoded(vec![], 44100, 2);
    assert!(matches!(r, Err(DecodeError::EmptyAudio)));
}

#[test]
fn from_decoded_keeps_everything() {
    let b = AudioBuffer::from_decoded(vec![vec![], vec![0.5f32]], 22050, 3).unwrap();
    assert_eq!(b.samples, vec![vec![], vec![0.5f32]]);
    assert_eq!(b.sample_rate, 22050);
    assert_eq!(b.channels, 3);
}
