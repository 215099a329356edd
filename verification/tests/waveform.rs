use soundz::waveform::overview_ranges;

#[test]
fn even_chunks() {
    assert_eq!(overview_ranges(10, 3), vec![(0, 3), (3, 6), (6, 9)]);
    assert_eq!(overview_ranges(5, 1), vec![(0, 5)]);
}

#[test]
fn no_ranges_without_frames() {
    assert_eq!(overview_ranges(0, 4), vec![]);
    assert_eq!(overview_ranges(0, 0), vec![]);
}

#[test]
fn at_least_one_frame_per_point() {
    assert_eq!(overview_ranges(3, 4), vec![(0, 1), (1, 2), (2, 3), (3, 3)]);
    assert_eq!(overview_ranges(7, 4), vec![(0, 1), (1, 2), (2, 3), (3, 4)]);
}
