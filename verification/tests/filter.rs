use soundz::ops::filter::{FilterSpec, FilterSpecError};

fn low(hz: &str) -> FilterSpec<String> {
    FilterSpec::LowPass { cutoff_hz: hz.to_string() }
}

#[test]
fn parses_lowpass() {
    assert_eq!(FilterSpec::parse("lowpass:1000"), Ok(low("1000")));
}

#[test]
fn parses_highpass() {
    assert_eq!(
        FilterSpec::parse("highpass:80.5"),
        Ok(FilterSpec::HighPass { cutoff_hz: "80.5".to_string() })
    );
}

#[test]
fn parses_bandpass() {
    assert_eq!(
        FilterSpec::parse("bandpass:1000:200"),
        Ok(FilterSpec::BandPass { center_hz: "1000".to_string(), bandwidth_hz: "200".to_string() })
    );
}

#[test]
fn bandpass_bandwidth_keeps_later_colons() {
    assert_eq!(
        FilterSpec::parse("bandpass:1:2:3"),
        Ok(FilterSpec::BandPass { center_hz: "1".to_string(), bandwidth_hz: "2:3".to_string() })
    );
}

#[test]
fn rejects_extra_fields_for_lowpass() {
    assert_eq!(FilterSpec::parse("lowpass:1:2"), Err(FilterSpecError::InvalidSpec));
}

#[test]
fn rejects_missing_fields() {
    assert_eq!(FilterSpec::parse("lowpass"), Err(FilterSpecError::InvalidSpec));
    assert_eq!(FilterSpec::parse("bandpass:100"), Err(FilterSpecError::InvalidSpec));
    assert_eq!(FilterSpec::parse(""), Err(FilterSpecError::InvalidSpec));
}

#[test]
fn rejects_unknown_kinds_and_case() {
    assert_eq!(FilterSpec::parse("notch:100"), Err(FilterSpecError::InvalidSpec));
    assert_eq!(FilterSpec::parse("LowPass:100"), Err(FilterSpecError::InvalidSpec));
    assert_eq!(FilterSpec::parse("highpass:1:2"), Err(FilterSpecError::InvalidSpec));
}

#[test]
fn empty_number_text_is_kept_for_the_caller() {
    assert_eq!(FilterSpec::parse("highpass:"), Ok(FilterSpec::HighPass { cutoff_hz: String::new() }));
}

#[test]
fn non_ascii_text_is_split_by_characters() {
    assert_eq!(FilterSpec::parse("lowpass:é1"), Ok(low("é1")));
    assert_eq!(FilterSpec::parse("lowpäss:1"), Err(FilterSpecError::InvalidSpec));
}

use soundz::audio::AudioBuffer;
use soundz::ops::filter::apply_filter;

fn running_sum(state: i64, x: i64) -> (i64, i64) {
    (state + x, state + x)
}

#[test]
fn each_channel_runs_its_own_filter() {
    let mut buf = AudioBuffer { samples: vec![vec![1i64, 2, 3], vec![4, 5, 6]], sample_rate: 3, channels: 2 };
    apply_filter(&mut buf, vec![0, 100], running_sum);
    assert_eq!(buf.samples, vec![vec![1, 3, 6], vec![104, 109, 115]]);
}

#[test]
fn channels_without_a_filter_are_unchanged() {
    let mut buf = AudioBuffer { samples: vec![vec![1i64, 2], vec![4, 5]], sample_rate: 2, channels: 2 };
    apply_filter(&mut buf, vec![10], running_sum);
    assert_eq!(buf.samples, vec![vec![11, 13], vec![4, 5]]);
}

#[test]
fn filtering_stops_at_the_frame_count() {
    let mut buf = AudioBuffer { samples: vec![vec![1i64], vec![1, 1, 1]], sample_rate: 1, channels: 2 };
    apply_filter(&mut buf, vec![0, 0], running_sum);
    assert_eq!(buf.samples, vec![vec![1], vec![1, 1, 1]]);
}
