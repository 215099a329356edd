use soundz::ops::speed::{append_channels, chunk_spans, padded_chunk, truncate_channels, RESAMPLE_CHUNK};

#[test]
fn empty_audio_still_has_one_chunk() {
    assert_eq!(chunk_spans(0, RESAMPLE_CHUNK), vec![(0, 0)]);
}

#[test]
fn chunks_cover_the_audio() {
    assert_eq!(chunk_spans(2500, 1024), vec![(0, 1024), (1024, 2048), (2048, 2500)]);
    assert_eq!(chunk_spans(2048, 1024), vec![(0, 1024), (1024, 2048)]);
    assert_eq!(chunk_spans(5, 1), vec![(0, 1), (1, 2), (2, 3), (3, 4), (4, 5)]);
}

#[test]
fn short_chunk_is_padded() {
    assert_eq!(padded_chunk(&vec![1, 2, 3], 1, 3, 4, 0), vec![2, 3, 0, 0]);
    assert_eq!(padded_chunk(&vec![1, 2, 3], 0, 3, 2, 0), vec![1, 2, 3]);
    assert_eq!(padded_chunk(&vec![1, 2, 3], 3, 3, 2, 9), vec![9, 9]);
}

#[test]
fn append_and_truncate() {
    let mut out: Vec<Vec<i32>> = vec![vec![1], vec![2], vec![3]];
    append_channels(&mut out, &vec![vec![4, 5], vec![6]]);
    assert_eq!(out, vec![vec![1, 4, 5], vec![2, 6], vec![3]]);
    truncate_channels(&mut out, 2);
    assert_eq!(out, vec![vec![1, 4], vec![2, 6], vec![3]]);
}
